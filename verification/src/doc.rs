use crate::utf::{
    chars_of, len_utf16, len_utf8, lemma_utf16_step, lemma_utf8_mono, lemma_utf8_prefix_le,
    lemma_utf8_step, lemma_utf8_strict, lemma_widths, utf16_len, utf16_width, utf8_len, utf8_width,
};
use crate::text::string_of;
use std::ops::Range;
use vstd::prelude::*;

verus! {

#[derive(Clone, Copy, PartialEq, Eq, Structural, Debug)]
pub enum NewKind {
    Rect,
    Ellipse,
    Polygon,
    Star,
    Line,
    Arrow,
    Path,
    Text,
    Frame,
}

#[derive(Clone, Copy, PartialEq, Eq, Structural, Debug)]
pub enum Order {
    Forward,
    Backward,
    Front,
    Back,
}

#[derive(Clone, Copy, PartialEq, Eq, Structural, Debug)]
pub enum Side {
    Left,
    Right,
}

/// The pages of the spread `k` among `n` pages: with facing pages the first page
/// alone, then pairs; else each page alone.
pub open spec fn spread_of(n: nat, facing: bool, k: int) -> Seq<usize> {
    if !facing || k == 0 {
        seq![k as usize]
    } else if 2 * k < n {
        seq![(2 * k - 1) as usize, (2 * k) as usize]
    } else {
        seq![(2 * k - 1) as usize]
    }
}

/// How many spreads `n` pages make.
pub open spec fn spread_count(n: nat, facing: bool) -> nat {
    if !facing {
        n
    } else if n == 0 {
        0
    } else {
        1 + n / 2
    }
}

pub open spec fn spreads_spec(n: nat, facing: bool) -> Seq<Seq<usize>> {
    Seq::new(spread_count(n, facing), |k: int| spread_of(n, facing, k))
}

/// The spreads one after another.
pub open spec fn flatten(s: Seq<Seq<usize>>) -> Seq<usize>
    decreases s.len(),
{
    if s.len() == 0 {
        Seq::empty()
    } else {
        flatten(s.drop_last()) + s.last()
    }
}

/// The first `k` spreads hold the pages before the first page of spread `k`.
proof fn lemma_spreads_prefix(n: nat, facing: bool, k: int)
    requires
        0 <= k <= spread_count(n, facing),
    ensures
        flatten(spreads_spec(n, facing).take(k)) == Seq::new(
            if !facing || k == 0 {
                k as nat
            } else if 2 * k - 1 <= n {
                (2 * k - 1) as nat
            } else {
                n
            },
            |i: int| i as usize,
        ),
    decreases k,
{
    let s = spreads_spec(n, facing);
    if k > 0 {
        lemma_spreads_prefix(n, facing, k - 1);
        assert(s.take(k).drop_last() =~= s.take(k - 1));
        assert(s.take(k).last() == spread_of(n, facing, k - 1));
        let m = if !facing || k == 0 {
            k as nat
        } else if 2 * k - 1 <= n {
            (2 * k - 1) as nat
        } else {
            n
        };
        assert(flatten(s.take(k)) =~= Seq::new(m, |i: int| i as usize));
    }
}

/// Every page is in exactly one spread, and the spreads hold the pages in order:
/// one after another they are the pages 0 to `n - 1`.
pub proof fn lemma_spreads_hold_every_page_once(n: nat, facing: bool)
    requires
        n <= usize::MAX,
    ensures
        flatten(spreads_spec(n, facing)) == Seq::new(n, |i: int| i as usize),
{
    let c = spread_count(n, facing);
    lemma_spreads_prefix(n, facing, c as int);
    assert(spreads_spec(n, facing).take(c as int) =~= spreads_spec(n, facing));
}

/// The indices of the pages of each spread among `n` pages.
pub fn spreads(n: usize, facing: bool) -> (r: Vec<Vec<usize>>)
    ensures
        r@.len() == spread_count(n as nat, facing),
        forall|k: int| 0 <= k < r@.len() ==> #[trigger] r@[k]@ == spread_of(n as nat, facing, k),
{
    let mut out: Vec<Vec<usize>> = Vec::new();
    if !facing {
        let mut i: usize = 0;
        while i < n
            invariant
                i <= n,
                !facing,
                out@.len() == i,
                forall|k: int| 0 <= k < i ==> #[trigger] out@[k]@ == spread_of(n as nat, facing, k),
            decreases n - i,
        {
            out.push(vec![i]);
            i = i + 1;
        }
        return out;
    }
    if n == 0 {
        return out;
    }
    out.push(vec![0]);
    let mut i: usize = 1;
    while i < n
        invariant
            facing,
            1 <= i <= n + 1,
            i % 2 == 1,
            out@.len() == (i + 1) / 2,
            forall|k: int| 0 <= k < out@.len() ==> #[trigger] out@[k]@ == spread_of(n as nat, facing, k),
        decreases n + 1 - i,
    {
        if i + 1 < n {
            out.push(vec![i, i + 1]);
        } else {
            out.push(vec![i]);
        }
        i = i + 2;
    }
    assert(out@.len() == 1 + n / 2);
    out
}

/// The spread of page `i` and, with facing pages, its side: the first page alone
/// on the right, then each pair left and right.
pub open spec fn place_of(facing: bool, i: int) -> (usize, Option<Side>) {
    if !facing {
        (i as usize, None)
    } else if i == 0 {
        (0, Some(Side::Right))
    } else {
        (((i + 1) / 2) as usize, Some(if i % 2 == 1 { Side::Left } else { Side::Right }))
    }
}

/// How many of the `n` pages the first `k` spreads hold.
spec fn covered(n: nat, facing: bool, k: int) -> int {
    if !facing || k == 0 {
        k
    } else if 2 * k - 1 <= n {
        2 * k - 1
    } else {
        n as int
    }
}

/// Where each of `n` pages sits: the index of its spread and, with facing pages,
/// whether it is the left or the right page of it.
pub fn places(n: usize, facing: bool) -> (r: Vec<(usize, Option<Side>)>)
    ensures
        r@.len() == n,
        forall|i: int| 0 <= i < n ==> #[trigger] r@[i] == place_of(facing, i),
{
    let mut out: Vec<(usize, Option<Side>)> = Vec::new();
    let mut i: usize = 0;
    while i < n
        invariant
            i <= n,
            out@.len() == i,
        decreases n - i,
    {
        out.push((0, None));
        i = i + 1;
    }
    let s = spreads(n, facing);
    let mut k: usize = 0;
    while k < s.len()
        invariant
            s@.len() == spread_count(n as nat, facing),
            forall|q: int| 0 <= q < s@.len() ==> #[trigger] s@[q]@ == spread_of(n as nat, facing, q),
            k <= s@.len(),
            out@.len() == n,
            0 <= covered(n as nat, facing, k as int) <= n,
            forall|p: int|
                0 <= p < covered(n as nat, facing, k as int) ==> #[trigger] out@[p] == place_of(
                    facing,
                    p,
                ),
        decreases s@.len() - k,
    {
        let spread = &s[k];
        assert(spread@ == spread_of(n as nat, facing, k as int));
        let mut j: usize = 0;
        while j < spread.len()
            invariant
                spread@ == spread_of(n as nat, facing, k as int),
                k < spread_count(n as nat, facing),
                j <= spread@.len(),
                out@.len() == n,
                0 <= covered(n as nat, facing, k as int) <= n,
                forall|p: int|
                    0 <= p < covered(n as nat, facing, k as int) + j ==> #[trigger] out@[p]
                        == place_of(facing, p),
            decreases spread@.len() - j,
        {
            let page = spread[j];
            assert(page as int == covered(n as nat, facing, k as int) + j);
            let side = if !facing {
                None
            } else if (spread.len() == 1 && page == 0) || (spread.len() == 2 && j == 1) {
                Some(Side::Right)
            } else {
                Some(Side::Left)
            };
            out.set(page, (k, side));
            j = j + 1;
        }
        assert(covered(n as nat, facing, k as int) + spread@.len() == covered(
            n as nat,
            facing,
            k + 1,
        ));
        k = k + 1;
    }
    assert(covered(n as nat, facing, spread_count(n as nat, facing) as int) == n);
    out
}

/// Each page's place names the spread that holds it.
pub proof fn lemma_place_is_in_its_spread(n: nat, facing: bool, i: int)
    requires
        0 <= i < n,
        n <= usize::MAX,
    ensures
        (place_of(facing, i).0 as int) < spread_count(n, facing),
        spread_of(n, facing, place_of(facing, i).0 as int).contains(i as usize),
{
    let k = place_of(facing, i).0 as int;
    let s = spread_of(n, facing, k);
    if !facing || i == 0 {
        assert(s[0] == i as usize);
    } else if i % 2 == 1 {
        assert(s[0] == i as usize);
    } else {
        assert(s[1] == i as usize);
    }
}



proof fn lemma_utf16_le_utf8(cs: Seq<char>, i: int)
    requires
        0 <= i <= cs.len(),
    ensures
        utf16_len(cs.take(i)) <= utf8_len(cs.take(i)),
        i <= utf16_len(cs.take(i)),
    decreases i,
{
    if i == 0 {
        assert(cs.take(0) =~= Seq::<char>::empty());
    } else {
        lemma_utf16_le_utf8(cs, i - 1);
        lemma_utf8_step(cs, i - 1);
        lemma_utf16_step(cs, i - 1);
        lemma_widths(cs[i - 1]);
    }
}

/// UTF-16 offsets of prefixes grow with the prefix.
proof fn lemma_utf16_monotone(cs: Seq<char>, i: int, j: int)
    requires
        0 <= i <= j <= cs.len(),
    ensures
        utf16_len(cs.take(i)) <= utf16_len(cs.take(j)),
        i < j ==> utf16_len(cs.take(i)) < utf16_len(cs.take(j)),
    decreases j - i,
{
    if i < j {
        lemma_utf16_monotone(cs, i, j - 1);
        lemma_utf16_step(cs, j - 1);
        lemma_widths(cs[j - 1]);
    }
}

pub open spec fn outside_the_text() -> Seq<char> {
    "index outside the text"@
}

/// The byte offset in `s` of the UTF-16 `index`: that of the first character
/// boundary at or after it, or an error past the end of the text.
pub fn byte_of(s: &str, index: usize) -> (r: Result<usize, String>)
    ensures
        match r {
            Ok(b) => exists|i: int|
                0 <= i <= s@.len() && utf16_len(s@.take(i)) >= index && (forall|j: int|
                    0 <= j < i ==> utf16_len(#[trigger] s@.take(j)) < index) && b == utf8_len(
                    s@.take(i),
                ),
            Err(e) => utf16_len(s@) < index && e@ == outside_the_text(),
        },
{
    let cs = chars_of(s);
    let total = s.as_bytes().len();
    proof {
        assert(cs@.take(cs@.len() as int) =~= cs@);
    }
    let mut units: usize = 0;
    let mut b: usize = 0;
    let mut i: usize = 0;
    while i < cs.len()
        invariant
            cs@ == s@,
            total == utf8_len(s@),
            i <= cs@.len(),
            units == utf16_len(cs@.take(i as int)),
            b == utf8_len(cs@.take(i as int)),
            forall|j: int| 0 <= j < i ==> utf16_len(#[trigger] cs@.take(j)) < index,
        decreases cs@.len() - i,
    {
        if units >= index {
            return Ok(b);
        }
        proof {
            lemma_utf8_step(cs@, i as int);
            lemma_utf16_step(cs@, i as int);
            lemma_utf16_le_utf8(cs@, i + 1);
            lemma_utf8_prefix_le(cs@, i + 1);
        }
        units = units + len_utf16(cs[i]);
        b = b + len_utf8(cs[i]);
        i = i + 1;
    }
    assert(cs@.take(i as int) =~= s@);
    if units >= index {
        Ok(total)
    } else {
        Err(String::from_str("index outside the text"))
    }
}

/// The UTF-16 index of the byte offset `byte` in `s`, which must fall on a
/// character boundary or past the end.
pub fn utf16_of(s: &str, byte: usize) -> (r: usize)
    requires
        byte >= utf8_len(s@) || exists|i: int| 0 <= i <= s@.len() && utf8_len(#[trigger] s@.take(i)) == byte,
    ensures
        exists|i: int|
            0 <= i <= s@.len() && utf8_len(#[trigger] s@.take(i)) == if byte < utf8_len(s@) {
                byte as int
            } else {
                utf8_len(s@) as int
            } && r == utf16_len(s@.take(i)),
{
    let cs = chars_of(s);
    let total = s.as_bytes().len();
    let target = if byte < total {
        byte
    } else {
        total
    };
    proof {
        assert(cs@.take(cs@.len() as int) =~= cs@);
    }
    let mut units: usize = 0;
    let mut b: usize = 0;
    let mut i: usize = 0;
    while i < cs.len() && b < target
        invariant
            cs@ == s@,
            total == utf8_len(s@),
            target <= total,
            target == if byte < total {
                byte
            } else {
                total
            },
            byte >= utf8_len(s@) || exists|k: int|
                0 <= k <= s@.len() && utf8_len(#[trigger] s@.take(k)) == byte,
            i <= cs@.len(),
            units == utf16_len(cs@.take(i as int)),
            b == utf8_len(cs@.take(i as int)),
            b <= target,
        decreases cs@.len() - i,
    {
        proof {
            lemma_utf8_step(cs@, i as int);
            lemma_utf16_step(cs@, i as int);
            lemma_utf16_le_utf8(cs@, i + 1);
            lemma_utf8_prefix_le(cs@, i + 1);
            lemma_utf8_strict(cs@, i as int, i + 1);
            if b + utf8_width(cs@[i as int]) > target {
                // the target is no boundary: it falls inside this character
                if byte < utf8_len(s@) {
                    let k = choose|k: int|
                        0 <= k <= s@.len() && utf8_len(#[trigger] s@.take(k)) == byte;
                    if k <= i {
                        lemma_utf8_mono(cs@, k, i as int);
                    } else {
                        lemma_utf8_mono(cs@, i + 1, k);
                    }
                }
            }
        }
        units = units + len_utf16(cs[i]);
        b = b + len_utf8(cs[i]);
        i = i + 1;
    }
    proof {
        if b < target {
            assert(i == cs@.len());
            assert(cs@.take(i as int) =~= cs@);
        }
    }
    units
}




/// The UTF-16 offset just after the character `k` of `cs`.
pub open spec fn after_char(cs: Seq<char>, k: int) -> int {
    utf16_len(cs.take(k + 1)) as int
}

/// The UTF-16 range of the paragraphs that `r` touches in `text`: from the last
/// paragraph start at or before `r.start` up to the first newline at or after the
/// last unit of `r` (the start of an empty range), past that newline, or to the end.
pub fn paragraphs(text: &str, r: &Range<usize>) -> (p: Range<usize>)
    ensures
        ({
            let cs = text@;
            let last = if r.end > r.start {
                r.end - 1
            } else {
                r.end as int
            };
            &&& p.start == 0 || exists|k: int|
                0 <= k < cs.len() && cs[k] == '\n' && #[trigger] after_char(cs, k) == p.start
                    && p.start <= r.start
            &&& forall|k: int|
                0 <= k < cs.len() && cs[k] == '\n' && #[trigger] after_char(cs, k) <= r.start
                    ==> after_char(cs, k) <= p.start
            &&& p.end == utf16_len(cs) || exists|k: int|
                0 <= k < cs.len() && cs[k] == '\n' && #[trigger] after_char(cs, k) == p.end && p.end
                    > last
            &&& forall|k: int|
                0 <= k < cs.len() && cs[k] == '\n' && #[trigger] after_char(cs, k) > last ==> p.end
                    <= after_char(cs, k)
        }),
{
    let cs = chars_of(text);
    let total = text.as_bytes().len();
    let last = if r.end > r.start {
        r.end - 1
    } else {
        r.end
    };
    let mut start: usize = 0;
    let mut end: Option<usize> = None;
    let mut units: usize = 0;
    let mut i: usize = 0;
    proof {
        assert(cs@.take(cs@.len() as int) =~= cs@);
        lemma_utf16_le_utf8(cs@, cs@.len() as int);
    }
    while i < cs.len()
        invariant
            cs@ == text@,
            total == utf8_len(text@),
            i <= cs@.len(),
            units == utf16_len(cs@.take(i as int)),
            units <= total,
            start == 0 || exists|k: int|
                0 <= k < i && cs@[k] == '\n' && #[trigger] after_char(cs@, k) == start && start
                    <= r.start,
            forall|k: int|
                0 <= k < i && cs@[k] == '\n' && #[trigger] after_char(cs@, k) <= r.start
                    ==> after_char(cs@, k) <= start,
            match end {
                Some(e) => exists|k: int|
                    0 <= k < i && cs@[k] == '\n' && #[trigger] after_char(cs@, k) == e && e > last,
                None => forall|k: int|
                    0 <= k < i && cs@[k] == '\n' ==> #[trigger] after_char(cs@, k) <= last,
            },
            forall|k: int|
                0 <= k < i && cs@[k] == '\n' && #[trigger] after_char(cs@, k) > last ==> end is Some
                    && end->0 <= after_char(cs@, k),
        decreases cs@.len() - i,
    {
        proof {
            lemma_utf16_step(cs@, i as int);
            lemma_utf16_le_utf8(cs@, i + 1);
            lemma_utf8_prefix_le(cs@, i + 1);
            assert forall|k: int| 0 <= k < i implies #[trigger] after_char(cs@, k) < after_char(
                cs@,
                i as int,
            ) by {
                lemma_utf16_monotone(cs@, k + 1, i + 1);
            }
        }
        units = units + len_utf16(cs[i]);
        assert(after_char(cs@, i as int) == units);
        if cs[i] == '\n' {
            if units <= r.start {
                start = units;
            }
            if end.is_none() && units > last {
                end = Some(units);
            }
        }
        i = i + 1;
    }
    assert(cs@.take(i as int) =~= cs@);
    let e = match end {
        Some(e) => e,
        None => units,
    };
    start..e
}

/// Characters of a master's name that its page number prefix takes: the letters
/// and digits of Unicode, as `char::is_alphanumeric` tells them.
pub uninterp spec fn alphanumeric(c: char) -> bool;

/// `char::is_alphanumeric`. Claimed: the answer depends on `c` alone, and is named
/// `alphanumeric(c)`.
#[verifier::external_body]
fn is_alphanumeric(c: char) -> (r: bool)
    ensures
        r == alphanumeric(c),
{
    c.is_alphanumeric()
}

/// The upper case of the text `cs`, as `str::to_uppercase` maps it.
pub uninterp spec fn uppercase(cs: Seq<char>) -> Seq<char>;

/// `str::to_uppercase`. Claimed: the result depends on the characters of `s` alone,
/// and is named `uppercase(s)`.
#[verifier::external_body]
fn to_uppercase(s: &str) -> (r: String)
    ensures
        r@ == uppercase(s@),
{
    s.to_uppercase()
}

pub open spec fn head_char(c: char) -> bool {
    alphanumeric(c) || c == '_'
}

/// The number of leading characters of `cs` from `i` on that a prefix can hold.
pub open spec fn head_len(cs: Seq<char>, i: int) -> int
    decreases cs.len() - i,
{
    if i >= cs.len() || i < 0 || !head_char(cs[i]) {
        i
    } else {
        head_len(cs, i + 1)
    }
}

/// The letters a master's page numbers show, before upper-casing: the leading
/// letters, digits and underscores of a name like "A-Master" when one to three of
/// them stand before a hyphen, else the first character.
pub open spec fn prefix_chars(cs: Seq<char>) -> Seq<char> {
    let k = head_len(cs, 0);
    if 1 <= k <= 3 && k < cs.len() && cs[k] == '-' {
        cs.take(k)
    } else {
        cs.take(if cs.len() > 0 {
            1int
        } else {
            0int
        })
    }
}

proof fn lemma_head_len(cs: Seq<char>, i: int)
    requires
        0 <= i <= cs.len(),
    ensures
        i <= head_len(cs, i) <= cs.len(),
    decreases cs.len() - i,
{
    if i < cs.len() && head_char(cs[i]) {
        lemma_head_len(cs, i + 1);
    }
}

/// The letters a master's page numbers show: the prefix of "A-Master", or the first
/// letter, as the pages panel shows it.
pub fn prefix(name: &str) -> (r: String)
    ensures
        r@ == uppercase(prefix_chars(name@)),
{
    let cs = chars_of(name);
    let mut k: usize = 0;
    while k < cs.len() && (is_alphanumeric(cs[k]) || cs[k] == '_')
        invariant
            k <= cs@.len(),
            head_len(cs@, 0) == head_len(cs@, k as int),
        decreases cs@.len() - k,
    {
        k = k + 1;
    }
    proof {
        lemma_head_len(cs@, 0);
    }
    let short = 1 <= k && k <= 3 && k < cs.len() && cs[k] == '-';
    let n = if short {
        k
    } else if cs.len() > 0 {
        1
    } else {
        0
    };
    let mut p: Vec<char> = Vec::new();
    let mut j: usize = 0;
    while j < n
        invariant
            n <= cs@.len(),
            j <= n,
            p@ == cs@.take(j as int),
        decreases n - j,
    {
        p.push(cs[j]);
        j = j + 1;
        assert(p@ =~= cs@.take(j as int));
    }
    assert(p@ =~= prefix_chars(name@));
    let text = string_of(p.as_slice());
    to_uppercase(text.as_str())
}


/// UTF-16 indices and byte offsets correspond one to one at character boundaries:
/// the byte that `byte_of` finds for the UTF-16 index of the boundary before the
/// character `k` is that boundary's byte offset, and `utf16_of` takes that byte
/// offset back to the same index.
pub proof fn lemma_boundaries_round_trip(cs: Seq<char>, k: int, i: int, j: int)
    requires
        0 <= k <= cs.len(),
        0 <= i <= cs.len(),
        utf16_len(cs.take(i)) >= utf16_len(cs.take(k)),
        forall|m: int| 0 <= m < i ==> utf16_len(#[trigger] cs.take(m)) < utf16_len(cs.take(k)),
        0 <= j <= cs.len(),
        utf8_len(cs.take(j)) == utf8_len(cs.take(i)),
    ensures
        i == k,
        j == k,
        utf8_len(cs.take(i)) == utf8_len(cs.take(k)),
        utf16_len(cs.take(j)) == utf16_len(cs.take(k)),
{
    if i < k {
        lemma_utf16_monotone(cs, i, k);
    }
    if k < i {
        assert(utf16_len(cs.take(k)) < utf16_len(cs.take(k)));
    }
    if j < i {
        lemma_utf8_strict(cs, j, i);
    }
    if i < j {
        lemma_utf8_strict(cs, i, j);
    }
}

} // verus!
