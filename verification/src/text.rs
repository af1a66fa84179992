//! Fonts that text can be set in, and the bookkeeping of set text that needs no
//! geometry: hyphenation points and the line that holds a character.
use crate::{content_hash, copy_bytes};
use crate::image::hash_of;
use crate::utf::{
    chars_of, len_utf8, lemma_encode_concat, lemma_utf8_prefix_le, lemma_utf8_step,
    lemma_utf8_strict, utf8_len,
};
use std::ops::Range;
use vstd::prelude::*;

verus! {

/// Marks the font of a glyph run whose own font is missing, drawn in the bundled one.
pub const MISSING: u32 = 0x80000000;

/// A font by its full name and a hash of its bytes.
#[derive(Debug, PartialEq, Eq)]
pub struct Typeface {
    pub name: String,
    pub hash: String,
}

impl View for Typeface {
    type V = (Seq<char>, Seq<char>);

    open spec fn view(&self) -> (Seq<char>, Seq<char>) {
        (self.name@, self.hash@)
    }
}

impl Typeface {
    /// A copy with the same name and hash.
    pub fn copy(&self) -> (r: Typeface)
        ensures
            r@ == self@,
    {
        Typeface { name: self.name.clone(), hash: self.hash.clone() }
    }
}

#[derive(Clone, Copy, PartialEq, Eq, Structural, Debug)]
pub enum TextAlign {
    Left,
    Center,
    Right,
    Justify,
}

impl Default for TextAlign {
    fn default() -> (r: TextAlign)
        ensures
            r == TextAlign::Left,
    {
        TextAlign::Left
    }
}

/// A language that hyphenation knows.
#[derive(Clone, Copy, PartialEq, Eq, Structural, Debug)]
pub enum Lang {
    En,
    De,
}

impl Default for Lang {
    fn default() -> (r: Lang)
        ensures
            r == Lang::En,
    {
        Lang::En
    }
}

#[derive(Clone, Copy, PartialEq, Eq, Structural, Debug)]
pub enum VerticalAlign {
    Top,
    Center,
    Bottom,
}

impl Default for VerticalAlign {
    fn default() -> (r: VerticalAlign)
        ensures
            r == VerticalAlign::Top,
    {
        VerticalAlign::Top
    }
}

/// `read_fonts` reads `bytes` as a font with a character map.
pub uninterp spec fn font_with_cmap(bytes: Seq<u8>) -> bool;

/// The English full name, else the first, that `skrifa` finds in the name table of
/// the font `bytes`.
pub uninterp spec fn font_full_name(bytes: Seq<u8>) -> Option<Seq<char>>;

/// `read_fonts::FontRef::new` and its `cmap` table. Claimed: whether both read
/// depends on the bytes alone, and is named `font_with_cmap(bytes)`.
#[verifier::external_body]
fn has_cmap(bytes: &[u8]) -> (r: bool)
    ensures
        r == font_with_cmap(bytes@),
{
    read_fonts::FontRef::new(bytes).and_then(|f| read_fonts::TableProvider::cmap(&f)).is_ok()
}

/// `skrifa::FontRef::new`, then the localized strings of `StringId::FULL_NAME`,
/// English or first. Claimed: the name depends on the bytes alone, and is named
/// `font_full_name(bytes)`.
#[verifier::external_body]
fn full_name(bytes: &[u8]) -> (r: Option<String>)
    ensures
        match r {
            Some(n) => font_full_name(bytes@) == Some(n@),
            None => font_full_name(bytes@) is None,
        },
{
    let font = skrifa::FontRef::new(bytes).ok()?;
    let name = skrifa::MetadataProvider::localized_strings(
        &font,
        skrifa::string::StringId::FULL_NAME,
    ).english_or_first()?;
    Some(name.to_string())
}

pub open spec fn not_a_font() -> Seq<char> {
    "not a TrueType or OpenType font"@
}

/// The typeface of the font file `bytes`: its full name and the hash of its bytes,
/// or an error when it does not read as a font with a character map and a name.
pub open spec fn typeface_spec(bytes: Seq<u8>) -> Result<(Seq<char>, Seq<char>), Seq<char>> {
    if !font_with_cmap(bytes) {
        Err(not_a_font())
    } else {
        match font_full_name(bytes) {
            Some(name) => Ok((name, hash_of(bytes))),
            None => Err(not_a_font()),
        }
    }
}

pub open spec fn face_result(r: Result<Typeface, String>) -> Result<(Seq<char>, Seq<char>), Seq<char>> {
    match r {
        Ok(t) => Ok(t@),
        Err(e) => Err(e@),
    }
}

pub fn typeface(bytes: &[u8]) -> (r: Result<Typeface, String>)
    ensures
        face_result(r) == typeface_spec(bytes@),
{
    if !has_cmap(bytes) {
        return Err(String::from_str("not a TrueType or OpenType font"));
    }
    let name = match full_name(bytes) {
        Some(n) => n,
        None => return Err(String::from_str("not a TrueType or OpenType font")),
    };
    Ok(Typeface { name, hash: content_hash(bytes) })
}

/// The fonts text can be set in by id, the bundled one first.
pub struct FontSet {
    pub faces: Vec<(Typeface, Vec<u8>)>,
}

/// A font that text can be set in: its name, hash and file.
pub struct FaceView {
    pub name: Seq<char>,
    pub hash: Seq<char>,
    pub bytes: Seq<u8>,
}

pub open spec fn face_view(f: (Typeface, Vec<u8>)) -> FaceView {
    FaceView { name: f.0.name@, hash: f.0.hash@, bytes: f.1@ }
}

impl View for FontSet {
    type V = Seq<FaceView>;

    open spec fn view(&self) -> Seq<FaceView> {
        self.faces@.map_values(|f: (Typeface, Vec<u8>)| face_view(f))
    }
}

impl FontSet {
    /// There is a font, no two share a hash, and every id is below `MISSING`.
    pub open spec fn wf(&self) -> bool {
        &&& 0 < self@.len() <= MISSING
        &&& distinct_hashes(self@)
    }

    /// The fonts with only the bundled font `bytes`.
    pub fn with_bundled(bytes: &[u8]) -> (r: Result<FontSet, String>)
        ensures
            match r {
                Ok(set) => set.wf() && set@.len() == 1 && typeface_spec(bytes@) == Ok::<
                    (Seq<char>, Seq<char>),
                    Seq<char>,
                >((set@[0].name, set@[0].hash)) && set@[0].bytes == bytes@,
                Err(e) => typeface_spec(bytes@) == Err::<(Seq<char>, Seq<char>), Seq<char>>(e@),
            },
    {
        let face = match typeface(bytes) {
            Ok(f) => f,
            Err(e) => return Err(e),
        };
        let mut faces = Vec::new();
        faces.push((face, copy_bytes(bytes)));
        let set = FontSet { faces };
        assert(set@[0] == face_view(set.faces@[0]));
        Ok(set)
    }

    fn position(&self, hash: &String) -> (r: Option<usize>)
        ensures
            match r {
                Some(i) => i < self@.len() && self@[i as int].hash == hash@ && forall|j: int|
                    0 <= j < i ==> (#[trigger] self@[j]).hash != hash@,
                None => forall|i: int| 0 <= i < self@.len() ==> (#[trigger] self@[i]).hash != hash@,
            },
    {
        let mut i: usize = 0;
        while i < self.faces.len()
            invariant
                i <= self@.len(),
                self@.len() == self.faces@.len(),
                forall|j: int| 0 <= j < i ==> (#[trigger] self@[j]).hash != hash@,
            decreases self@.len() - i,
        {
            assert(self@[i as int] == face_view(self.faces@[i as int]));
            if self.faces[i].0.hash == *hash {
                return Some(i);
            }
            i = i + 1;
        }
        None
    }
}

/// What adding the font file `bytes` does to the fonts `set`, and what it answers:
/// the file's typeface, added unless a font with its hash is there; or the error
/// when the file is no font.
pub open spec fn add_font_spec(set: Seq<FaceView>, bytes: Seq<u8>) -> (
    Seq<FaceView>,
    Result<(Seq<char>, Seq<char>), Seq<char>>,
) {
    match typeface_spec(bytes) {
        Err(e) => (set, Err(e)),
        Ok((name, hash)) => if exists|i: int| 0 <= i < set.len() && (#[trigger] set[i]).hash == hash {
            (set, Ok((name, hash)))
        } else {
            (set.push(FaceView { name, hash, bytes }), Ok((name, hash)))
        },
    }
}

/// Adding a font that is there already changes nothing: after a font was added,
/// adding it again leaves the fonts as they are and answers the same typeface.
pub proof fn lemma_add_font_once(set: Seq<FaceView>, bytes: Seq<u8>)
    requires
        add_font_spec(set, bytes).1 is Ok,
    ensures
        add_font_spec(add_font_spec(set, bytes).0, bytes) == add_font_spec(set, bytes),
{
    let (after, answer) = add_font_spec(set, bytes);
    let hash = typeface_spec(bytes)->Ok_0.1;
    if exists|i: int| 0 <= i < set.len() && (#[trigger] set[i]).hash == hash {
        let i = choose|i: int| 0 <= i < set.len() && (#[trigger] set[i]).hash == hash;
        assert(after[i].hash == hash);
    } else {
        assert(after[set.len() as int].hash == hash);
    }
}

/// The fonts after adding the files `files` one after another to `set`.
pub open spec fn add_fonts(set: Seq<FaceView>, files: Seq<Seq<u8>>) -> Seq<FaceView>
    decreases files.len(),
{
    if files.len() == 0 {
        set
    } else {
        add_font_spec(add_fonts(set, files.drop_last()), files.last()).0
    }
}

/// No two fonts share a hash.
pub open spec fn distinct_hashes(set: Seq<FaceView>) -> bool {
    forall|i: int, j: int| 0 <= i < j < set.len() ==> (#[trigger] set[i]).hash != (#[trigger] set[j]).hash
}

/// Whatever font files are added, the fonts there before stay, each in its place,
/// so the bundled font stays first and keeps id 0; each file adds at most one
/// font, at the end; and no two fonts come to share a hash.
pub proof fn lemma_fonts_only_grow(set: Seq<FaceView>, files: Seq<Seq<u8>>)
    requires
        distinct_hashes(set),
    ensures
        set.len() <= add_fonts(set, files).len() <= set.len() + files.len(),
        add_fonts(set, files).take(set.len() as int) == set,
        set.len() > 0 ==> add_fonts(set, files)[0] == set[0],
        distinct_hashes(add_fonts(set, files)),
    decreases files.len(),
{
    if files.len() > 0 {
        let before = add_fonts(set, files.drop_last());
        lemma_fonts_only_grow(set, files.drop_last());
        let after = add_fonts(set, files);
        assert(after == add_font_spec(before, files.last()).0);
        if after.len() > before.len() {
            let hash = typeface_spec(files.last())->Ok_0.1;
            assert(after == before.push(after[before.len() as int]));
            assert(after[before.len() as int].hash == hash);
            assert forall|i: int, j: int| 0 <= i < j < after.len() implies (#[trigger] after[i]).hash
                != (#[trigger] after[j]).hash by {
                if j == before.len() {
                    assert(after[i] == before[i]);
                } else {
                    assert(after[i] == before[i]);
                    assert(after[j] == before[j]);
                }
            }
            assert(after.take(set.len() as int) =~= before.take(set.len() as int));
        }
        if set.len() > 0 {
            assert(before.take(set.len() as int)[0] == before[0]);
            assert(after.take(set.len() as int)[0] == after[0]);
        }
    } else {
        assert(set.take(set.len() as int) =~= set);
    }
}

/// Adds the font `bytes` to those text can be set in, unless it is there already.
pub fn add_font(set: &mut FontSet, bytes: &[u8]) -> (r: Result<Typeface, String>)
    requires
        old(set).wf(),
        old(set)@.len() < MISSING,
    ensures
        final(set).wf(),
        (final(set)@, face_result(r)) == add_font_spec(old(set)@, bytes@),
{
    let face = match typeface(bytes) {
        Ok(f) => f,
        Err(e) => return Err(e),
    };
    if set.position(&face.hash).is_none() {
        let ghost before = set@;
        set.faces.push((face.copy(), copy_bytes(bytes)));
        proof {
            assert(set@ =~= before.push(
                FaceView { name: face.name@, hash: face.hash@, bytes: bytes@ },
            ));
            assert forall|i: int, j: int|
                0 <= i < j < set@.len() implies (#[trigger] set@[i]).hash != (
                #[trigger] set@[j]).hash by {
                assert(set@[i] == before[i]);
                if j < before.len() {
                    assert(set@[j] == before[j]);
                }
            }
        }
    }
    Ok(face)
}

/// The id of the font `face`, 0 for none, or the bundled one's marked `MISSING`
/// when it is not there.
pub fn font_id(set: &FontSet, face: &Option<Typeface>) -> (r: u32)
    requires
        set.wf(),
    ensures
        match face {
            None => r == 0,
            Some(f) => if exists|i: int| 0 <= i < set@.len() && (#[trigger] set@[i]).hash == f.hash@ {
                r < set@.len() && set@[r as int].hash == f.hash@
            } else {
                r == MISSING
            },
        },
{
    match face {
        None => 0,
        Some(f) => match set.position(&f.hash) {
            Some(i) => i as u32,
            None => MISSING,
        },
    }
}

/// The file of the font `id`, without its `MISSING` mark; the bundled one for an
/// unknown id.
pub fn font_bytes(set: &FontSet, id: u32) -> (r: &[u8])
    requires
        set.wf(),
    ensures
        r@ == if (id % MISSING) < set@.len() {
            set@[(id % MISSING) as int].bytes
        } else {
            set@[0].bytes
        },
{
    let k = id & !MISSING;
    assert(k == id % 0x80000000) by (bit_vector)
        requires
            k == id & !0x80000000u32,
    ;
    let i: usize = if (k as usize) < set.faces.len() {
        k as usize
    } else {
        0
    };
    assert(set@[i as int] == face_view(set.faces@[i as int]));
    set.faces[i].1.as_slice()
}

/// The fonts text can be set in.
pub fn fonts(set: &FontSet) -> (r: Vec<Typeface>)
    ensures
        r@.len() == set@.len(),
        forall|i: int|
            0 <= i < r@.len() ==> (#[trigger] r@[i])@ == (set@[i].name, set@[i].hash),
{
    let mut out: Vec<Typeface> = Vec::new();
    let mut i: usize = 0;
    while i < set.faces.len()
        invariant
            i <= set@.len(),
            set@.len() == set.faces@.len(),
            out@.len() == i,
            forall|j: int| 0 <= j < i ==> (#[trigger] out@[j])@ == (set@[j].name, set@[j].hash),
        decreases set@.len() - i,
    {
        assert(set@[i as int] == face_view(set.faces@[i as int]));
        out.push(set.faces[i].0.copy());
        i = i + 1;
    }
    out
}


/// The line holding the byte offset `at` among lines `(start, end)`: the first that
/// reaches it, unless the next line starts right there, as after a hyphen.
pub open spec fn holds(lines: Seq<(usize, usize)>, i: int, at: usize) -> bool {
    at < lines[i].1 || (at == lines[i].1 && (i + 1 >= lines.len() || lines[i + 1].0 != at))
}

/// The line holding the byte offset `at`, given each line's `(start, end)`: the
/// first that reaches it, unless the next line starts right there, as after a
/// hyphen; text past the last line is on it.
pub fn line_of(lines: &[(usize, usize)], at: usize) -> (r: usize)
    ensures
        (r < lines@.len() && holds(lines@, r as int, at) && forall|j: int|
            0 <= j < r ==> !holds(lines@, j, at)) || ((forall|j: int|
            0 <= j < lines@.len() ==> !holds(lines@, j, at)) && r == if lines@.len() > 0 {
            lines@.len() - 1
        } else {
            0
        }),
{
    let n = lines.len();
    let mut i: usize = 0;
    while i < n
        invariant
            n == lines@.len(),
            i <= n,
            forall|j: int| 0 <= j < i ==> !holds(lines@, j, at),
        decreases n - i,
    {
        let (_, end) = lines[i];
        if at < end || (at == end && (i + 1 >= n || lines[i + 1].0 != at)) {
            return i;
        }
        i = i + 1;
    }
    if n > 0 {
        n - 1
    } else {
        0
    }
}

/// Letters as `char::is_alphabetic` tells them: what hyphenation treats as words.
pub uninterp spec fn alphabetic(c: char) -> bool;

/// `char::is_alphabetic`. Claimed: the answer depends on `c` alone, and is named
/// `alphabetic(c)`.
#[verifier::external_body]
fn is_alphabetic(c: char) -> (r: bool)
    ensures
        r == alphabetic(c),
{
    c.is_alphabetic()
}

/// The byte lengths of the syllables that `hypher` splits the word `word` into in
/// the language `lang`.
pub uninterp spec fn hyphen_syllables(word: Seq<char>, lang: Lang) -> Seq<usize>;

pub open spec fn sum(s: Seq<usize>) -> int
    decreases s.len(),
{
    if s.len() == 0 {
        0
    } else {
        sum(s.drop_last()) + s.last()
    }
}

/// `hypher::hyphenate` on the text of the characters `word`, English or German,
/// and the byte length of each syllable. Claimed: the result depends on the word
/// and the language alone, and is named `hyphen_syllables(word, lang)`; the
/// syllables split the word, so their lengths add up to its UTF-8 length, as the
/// iterator of `hypher` runs from the start of the word to its end, and none is
/// empty, as it only yields a syllable that ends after its start.
#[verifier::external_body]
fn syllable_lengths(word: &[char], lang: Lang) -> (r: Vec<usize>)
    ensures
        r@ == hyphen_syllables(word@, lang),
        sum(r@) == utf8_len(word@),
        forall|k: int| 0 <= k < r@.len() ==> #[trigger] r@[k] > 0,
{
    let text: String = word.iter().collect();
    let lang = match lang {
        Lang::En => hypher::Lang::English,
        Lang::De => hypher::Lang::German,
    };
    hypher::hyphenate(&text, lang).map(|s| s.len()).collect()
}

/// Where the word of letters that starts at `i` ends.
pub open spec fn word_end(cs: Seq<char>, i: int) -> int
    decreases cs.len() - i,
{
    if i < 0 || i >= cs.len() || !alphabetic(cs[i]) {
        i
    } else {
        word_end(cs, i + 1)
    }
}

/// The offsets between the syllables `parts` of a word at the byte `at`.
pub open spec fn inner_breaks(at: int, parts: Seq<usize>) -> Seq<usize> {
    Seq::new(
        if parts.len() > 0 {
            (parts.len() - 1) as nat
        } else {
            0
        },
        |k: int| (at + sum(parts.take(k + 1))) as usize,
    )
}

/// Byte offsets where a hyphen may go in the characters `cs` from `i` on: between
/// the syllables of each word of letters.
pub open spec fn breaks_from(cs: Seq<char>, i: int, lang: Lang) -> Seq<usize>
    decreases cs.len() - i, 1int,
{
    if i < 0 || i >= cs.len() {
        Seq::empty()
    } else if !alphabetic(cs[i]) {
        breaks_from(cs, i + 1, lang)
    } else {
        inner_breaks(utf8_len(cs.take(i)) as int, hyphen_syllables(cs.subrange(i, word_end(cs, i)), lang))
            + breaks_from_word_end(cs, i, lang)
    }
}

pub open spec fn breaks_from_word_end(cs: Seq<char>, i: int, lang: Lang) -> Seq<usize>
    decreases cs.len() - i, 0int,
{
    if 0 <= i < cs.len() && alphabetic(cs[i]) && i < word_end(cs, i) <= cs.len() {
        breaks_from(cs, word_end(cs, i), lang)
    } else {
        Seq::empty()
    }
}

proof fn lemma_word_end(cs: Seq<char>, i: int)
    requires
        0 <= i <= cs.len(),
    ensures
        i <= word_end(cs, i) <= cs.len(),
        word_end(cs, i) < cs.len() ==> !alphabetic(cs[word_end(cs, i)]),
        forall|k: int| i <= k < word_end(cs, i) ==> alphabetic(#[trigger] cs[k]),
        0 <= i < cs.len() && alphabetic(cs[i]) ==> i < word_end(cs, i),
    decreases cs.len() - i,
{
    if i < cs.len() && alphabetic(cs[i]) {
        lemma_word_end(cs, i + 1);
    }
}

proof fn lemma_sum_step(s: Seq<usize>, k: int)
    requires
        0 <= k < s.len(),
    ensures
        sum(s.take(k + 1)) == sum(s.take(k)) + s[k],
{
    assert(s.take(k + 1).drop_last() =~= s.take(k));
}

proof fn lemma_sum_prefix(s: Seq<usize>, k: int)
    requires
        0 <= k <= s.len(),
    ensures
        0 <= sum(s.take(k)) <= sum(s),
    decreases s.len() - k,
{
    if k < s.len() {
        lemma_sum_prefix(s, k + 1);
        lemma_sum_step(s, k);
    } else {
        assert(s.take(k) =~= s);
    }
    lemma_sum_nonneg(s.take(k));
}

proof fn lemma_sum_nonneg(s: Seq<usize>)
    ensures
        sum(s) >= 0,
    decreases s.len(),
{
    if s.len() > 0 {
        lemma_sum_nonneg(s.drop_last());
    }
}

/// Strictly ascending.
pub open spec fn ascending(s: Seq<usize>) -> bool {
    forall|a: int, b: int| 0 <= a < b < s.len() ==> s[a] < s[b]
}

proof fn lemma_sum_strict(s: Seq<usize>, a: int, b: int)
    requires
        0 <= a < b <= s.len(),
        forall|k: int| 0 <= k < s.len() ==> #[trigger] s[k] > 0,
    ensures
        sum(s.take(a)) < sum(s.take(b)),
    decreases b - a,
{
    lemma_sum_step(s, b - 1);
    if a < b - 1 {
        lemma_sum_strict(s, a, b - 1);
    }
}

/// The byte offsets between the syllables `parts` of a word that starts at the
/// byte `at`: after the first syllable, after the second, and so on up to the last.
pub open spec fn between(at: int, parts: Seq<usize>) -> Seq<usize> {
    Seq::new(
        if parts.len() > 0 {
            (parts.len() - 1) as nat
        } else {
            0
        },
        |k: int| (at + sum(parts.take(k + 1))) as usize,
    )
}

proof fn lemma_word_end_is(cs: Seq<char>, i: int, j: int)
    requires
        0 <= i <= j <= cs.len(),
        forall|k: int| i <= k < j ==> alphabetic(#[trigger] cs[k]),
        j == cs.len() || !alphabetic(cs[j]),
    ensures
        word_end(cs, i) == j,
    decreases j - i,
{
    if i < j {
        lemma_word_end_is(cs, i + 1, j);
    }
}

/// A paragraph that is one word of letters, whatever their case, may take a
/// hyphen exactly between the syllables that `hypher` finds in it.
pub proof fn lemma_one_word_breaks_between_its_syllables(w: Seq<char>, lang: Lang)
    requires
        w.len() > 0,
        forall|k: int| 0 <= k < w.len() ==> alphabetic(#[trigger] w[k]),
    ensures
        breaks_from(w, 0, lang) == between(0, hyphen_syllables(w, lang)),
{
    lemma_word_end_is(w, 0, w.len() as int);
    assert(w.subrange(0, w.len() as int) =~= w);
    assert(w.take(0) =~= Seq::<char>::empty());
    assert(utf8_len(w.take(0)) == 0) by {
        reveal_with_fuel(vstd::utf8::encode_utf8, 1);
    }
    assert(breaks_from(w, w.len() as int, lang) == Seq::<usize>::empty());
    assert(breaks_from_word_end(w, 0, lang) == Seq::<usize>::empty());
    let parts = hyphen_syllables(w, lang);
    assert(breaks_from(w, 0, lang) == inner_breaks(0, parts) + Seq::<usize>::empty());
    assert(inner_breaks(0, parts) =~= between(0, parts));
    assert(breaks_from(w, 0, lang) =~= between(0, hyphen_syllables(w, lang)));
}

/// Every word of letters in a paragraph, wherever it stands and whatever its case,
/// may take a hyphen between each two of the syllables `hypher` finds in it, at
/// the byte where the word starts plus the length of the syllables before.
pub proof fn lemma_every_word_is_hyphenated(cs: Seq<char>, lang: Lang, i: int, j: int, k: int)
    requires
        0 <= i < j <= cs.len(),
        i == 0 || !alphabetic(cs[i - 1]),
        forall|q: int| i <= q < j ==> alphabetic(#[trigger] cs[q]),
        j == cs.len() || !alphabetic(cs[j]),
        0 <= k < between(utf8_len(cs.take(i)) as int, hyphen_syllables(cs.subrange(i, j), lang)).len(),
    ensures
        breaks_from(cs, 0, lang).contains(
            between(utf8_len(cs.take(i)) as int, hyphen_syllables(cs.subrange(i, j), lang))[k],
        ),
{
    lemma_word_end_is(cs, i, j);
    lemma_breaks_reach(cs, lang, 0, i, k);
}

proof fn lemma_breaks_reach(cs: Seq<char>, lang: Lang, p: int, i: int, k: int)
    requires
        0 <= p <= i < cs.len(),
        p == 0 || !alphabetic(cs[p - 1]) || !alphabetic(cs[p]),
        alphabetic(cs[i]),
        i == 0 || !alphabetic(cs[i - 1]),
        0 <= k < inner_breaks(
            utf8_len(cs.take(i)) as int,
            hyphen_syllables(cs.subrange(i, word_end(cs, i)), lang),
        ).len(),
    ensures
        breaks_from(cs, p, lang).contains(
            inner_breaks(
                utf8_len(cs.take(i)) as int,
                hyphen_syllables(cs.subrange(i, word_end(cs, i)), lang),
            )[k],
        ),
    decreases i - p,
{
    let x = inner_breaks(
        utf8_len(cs.take(i)) as int,
        hyphen_syllables(cs.subrange(i, word_end(cs, i)), lang),
    )[k];
    lemma_word_end(cs, p);
    if p == i {
        let head = inner_breaks(
            utf8_len(cs.take(i)) as int,
            hyphen_syllables(cs.subrange(i, word_end(cs, i)), lang),
        );
        let all = head + breaks_from_word_end(cs, i, lang);
        assert(breaks_from(cs, i, lang) == all);
        assert(all[k] == x);
    } else if !alphabetic(cs[p]) {
        lemma_breaks_reach(cs, lang, p + 1, i, k);
        assert(breaks_from(cs, p, lang) == breaks_from(cs, p + 1, lang));
    } else {
        let e = word_end(cs, p);
        if e > i {
            assert(alphabetic(cs[i - 1]));
        }
        assert(e <= i);
        assert(!alphabetic(cs[e]));
        assert(e < i);
        lemma_breaks_reach(cs, lang, e, i, k);
        let head = inner_breaks(
            utf8_len(cs.take(p)) as int,
            hyphen_syllables(cs.subrange(p, e), lang),
        );
        let rest = breaks_from(cs, e, lang);
        assert(breaks_from_word_end(cs, p, lang) == rest);
        assert(breaks_from(cs, p, lang) == head + rest);
        let q = choose|q: int| 0 <= q < rest.len() && rest[q] == x;
        assert((head + rest)[head.len() + q] == x);
    }
}

/// Byte offsets in `para` where `lang` allows a hyphen, ascending.
pub fn syllables(para: &str, lang: Lang) -> (r: Vec<usize>)
    ensures
        r@ == breaks_from(para@, 0, lang),
        ascending(r@),
        forall|k: int| 0 <= k < r@.len() ==> 0 < #[trigger] r@[k] < utf8_len(para@),
{
    let cs = chars_of(para);
    let total = para.as_bytes().len();
    let n = cs.len();
    let mut out: Vec<usize> = Vec::new();
    let mut i: usize = 0;
    let mut b: usize = 0;
    proof {
        assert(cs@.take(n as int) =~= cs@);
        assert(cs@.take(0) =~= Seq::<char>::empty());
    }
    while i < n
        invariant
            n == cs@.len(),
            cs@ == para@,
            total == utf8_len(cs@),
            i <= n,
            b == utf8_len(cs@.take(i as int)),
            b <= total,
            out@ + breaks_from(cs@, i as int, lang) == breaks_from(cs@, 0, lang),
            ascending(out@),
            forall|k: int| 0 <= k < out@.len() ==> 0 < #[trigger] out@[k] < b,
        decreases n - i,
    {
        proof {
            lemma_word_end(cs@, i as int);
            crate::utf::lemma_encode_concat(cs@.take(i as int), cs@.skip(i as int));
            assert(cs@.take(i as int) + cs@.skip(i as int) =~= cs@);
        }
        if !is_alphabetic(cs[i]) {
            proof {
                lemma_utf8_step(cs@, i as int);
                crate::utf::lemma_encode_concat(cs@.take(i + 1), cs@.skip(i + 1));
                assert(cs@.take(i + 1) + cs@.skip(i + 1) =~= cs@);
            }
            b = b + len_utf8(cs[i]);
            i = i + 1;
        } else {
            let mut j: usize = i;
            let mut wb: usize = b;
            let mut word: Vec<char> = Vec::new();
            while j < n && is_alphabetic(cs[j])
                invariant
                    n == cs@.len(),
                    total == utf8_len(cs@),
                    i <= j <= word_end(cs@, i as int),
                    word_end(cs@, i as int) <= n,
                    word_end(cs@, j as int) == word_end(cs@, i as int),
                    word@ == cs@.subrange(i as int, j as int),
                    wb == utf8_len(cs@.take(j as int)),
                    forall|k: int| i <= k < word_end(cs@, i as int) ==> alphabetic(#[trigger] cs@[k]),
                decreases n - j,
            {
                proof {
                    lemma_utf8_step(cs@, j as int);
                    crate::utf::lemma_encode_concat(cs@.take(j + 1), cs@.skip(j + 1));
                    assert(cs@.take(j + 1) + cs@.skip(j + 1) =~= cs@);
                }
                proof {
                    lemma_word_end(cs@, j + 1);
                }
                wb = wb + len_utf8(cs[j]);
                word.push(cs[j]);
                j = j + 1;
                assert(word@ =~= cs@.subrange(i as int, j as int));
            }
            proof {
                if j < word_end(cs@, i as int) {
                    assert(alphabetic(cs@[j as int]));
                }
                assert(j == word_end(cs@, i as int));
                // the word's bytes are those between the offsets of its ends
                assert(cs@.take(j as int) =~= cs@.take(i as int) + cs@.subrange(i as int, j as int));
                crate::utf::lemma_encode_concat(cs@.take(i as int), cs@.subrange(i as int, j as int));
            }
            let parts = syllable_lengths(word.as_slice(), lang);
            let ghost start = out@;
            let mut at: usize = b;
            let mut k: usize = 0;
            let m = parts.len();
            proof {
                lemma_utf8_prefix_le(cs@, j as int);
            }
            while m > 0 && k < m - 1
                invariant
                    m == parts@.len(),
                    k < m || m == 0,
                    sum(parts@) == wb - b,
                    wb <= total,
                    at == b + sum(parts@.take(k as int)),
                    out@ == start + inner_breaks(b as int, parts@).take(k as int),
                    forall|q: int| 0 <= q < parts@.len() ==> #[trigger] parts@[q] > 0,
                    ascending(out@),
                    forall|q: int| 0 <= q < start.len() ==> 0 < #[trigger] start[q] < b,
                    start.len() <= out@.len(),
                    forall|q: int| 0 <= q < out@.len() ==> 0 < #[trigger] out@[q] <= at,
                    at < wb || k + 1 >= m,
                decreases m - k,
            {
                proof {
                    lemma_sum_step(parts@, k as int);
                    lemma_sum_prefix(parts@, k + 1);
                    lemma_sum_strict(parts@, k + 1, m as int);
                    assert(parts@.take(m as int) =~= parts@);
                }
                at = at + parts[k];
                out.push(at);
                k = k + 1;
                assert(out@ =~= start + inner_breaks(b as int, parts@).take(k as int));
            }
            proof {
                assert(inner_breaks(b as int, parts@).take(k as int) =~= inner_breaks(
                    b as int,
                    parts@,
                ));
                assert(parts@ == hyphen_syllables(cs@.subrange(i as int, word_end(cs@, i as int)), lang));
                assert(breaks_from_word_end(cs@, i as int, lang) == breaks_from(cs@, j as int, lang));
                assert(breaks_from(cs@, i as int, lang) == inner_breaks(b as int, parts@)
                    + breaks_from(cs@, j as int, lang));
                assert(out@ + breaks_from(cs@, j as int, lang) =~= start + breaks_from(
                    cs@,
                    i as int,
                    lang,
                ));
            }
            b = wb;
            i = j;
        }
    }
    assert(out@ + breaks_from(cs@, i as int, lang) =~= out@);
    out
}


/// Stands for the number of the page a text is on, as InDesign's Current Page Number.
pub const PAGE_NUMBER: char = '\u{18}';

/// What the text of a glyph run needs of a glyph: the byte of the text it is set
/// for, and whether it is a hyphen inserted there.
#[derive(Clone, Copy, Debug, PartialEq, Eq)]
pub struct GlyphSource {
    pub cluster: usize,
    pub hyphen: bool,
}

/// White space: the characters with Unicode's White_Space property, the ones
/// `char::is_whitespace` tells apart.
pub open spec fn whitespace(c: char) -> bool {
    let v = c as u32;
    ||| 0x9 <= v <= 0xd
    ||| v == 0x20
    ||| v == 0x85
    ||| v == 0xa0
    ||| v == 0x1680
    ||| 0x2000 <= v <= 0x200a
    ||| v == 0x2028
    ||| v == 0x2029
    ||| v == 0x202f
    ||| v == 0x205f
    ||| v == 0x3000
}

fn is_whitespace(c: char) -> (r: bool)
    ensures
        r == whitespace(c),
{
    let v = c as u32;
    (0x9 <= v && v <= 0xd) || v == 0x20 || v == 0x85 || v == 0xa0 || v == 0x1680 || (0x2000
        <= v && v <= 0x200a) || v == 0x2028 || v == 0x2029 || v == 0x202f || v == 0x205f || v
        == 0x3000
}

/// `String::from_iter` over characters. Claimed: the string holds the characters,
/// in order.
#[verifier::external_body]
pub(crate) fn string_of(cs: &[char]) -> (r: String)
    ensures
        r@ == cs@,
{
    cs.iter().collect()
}

/// `b` is the byte offset of a character boundary of `cs`.
pub open spec fn is_boundary(cs: Seq<char>, b: int) -> bool {
    exists|i: int| 0 <= i <= cs.len() && utf8_len(#[trigger] cs.take(i)) == b
}

/// The character at whose start the byte offset `b` lies.
pub open spec fn char_index(cs: Seq<char>, b: int) -> int {
    choose|i: int| 0 <= i <= cs.len() && utf8_len(#[trigger] cs.take(i)) == b
}

/// The first cluster after glyph `k` among the glyphs from `j` on that lies past
/// glyph `k`'s, or `end`.
pub open spec fn next_cluster(line: Seq<GlyphSource>, k: int, j: int, end: int) -> int
    decreases line.len() - j,
{
    if j < 0 || j >= line.len() {
        end
    } else if line[j].cluster > line[k].cluster {
        line[j].cluster as int
    } else {
        next_cluster(line, k, j + 1, end)
    }
}

/// The first white space among the characters `a..e`, or `e`.
pub open spec fn space_at(cs: Seq<char>, a: int, e: int) -> int
    decreases e - a,
{
    if a >= e || a < 0 || a >= cs.len() {
        e
    } else if whitespace(cs[a]) {
        a
    } else {
        space_at(cs, a + 1, e)
    }
}

/// `s` with each page number marker replaced by `number`.
pub open spec fn with_number(s: Seq<char>, number: Seq<char>) -> Seq<char>
    decreases s.len(),
{
    if s.len() == 0 {
        Seq::empty()
    } else {
        with_number(s.drop_last(), number) + if s.last() == PAGE_NUMBER {
            number
        } else {
            seq![s.last()]
        }
    }
}

/// The text that glyph `k` of `line` stands for: a hyphen for an inserted hyphen;
/// for the first glyph of a cluster, the text up to the next glyph's cluster or
/// white space, so a ligature stands for all its letters; else nothing.
pub open spec fn piece(cs: Seq<char>, line: Seq<GlyphSource>, k: int, number: Seq<char>) -> Seq<char> {
    if line[k].hyphen {
        seq!['-']
    } else if k == 0 || line[k - 1].hyphen || line[k - 1].cluster < line[k].cluster {
        let a = char_index(cs, line[k].cluster as int);
        let e = char_index(cs, next_cluster(line, k, k + 1, utf8_len(cs) as int));
        with_number(cs.subrange(a, space_at(cs, a, e)), number)
    } else {
        Seq::empty()
    }
}

/// The text of the glyphs `start..k` of `line`, one after another.
pub open spec fn pieces(
    cs: Seq<char>,
    line: Seq<GlyphSource>,
    start: int,
    k: int,
    number: Seq<char>,
) -> Seq<char>
    decreases k - start,
{
    if k <= start {
        Seq::empty()
    } else {
        pieces(cs, line, start, k - 1, number) + piece(cs, line, k - 1, number)
    }
}

/// Glyph `k` of `line` starts the text of its cluster.
pub open spec fn starts_cluster(line: Seq<GlyphSource>, k: int) -> bool {
    !line[k].hyphen && (k == 0 || line[k - 1].hyphen || line[k - 1].cluster < line[k].cluster)
}

/// The text can be cut where the glyphs of `run` that start a cluster take their
/// text from: at their cluster and at the next glyph's cluster.
pub open spec fn cuts_in(cs: Seq<char>, line: Seq<GlyphSource>, start: int, end: int) -> bool {
    forall|k: int|
        start <= k < end && #[trigger] starts_cluster(line, k) ==> is_boundary(
            cs,
            line[k].cluster as int,
        ) && is_boundary(cs, next_cluster(line, k, k + 1, utf8_len(cs) as int))
}

proof fn lemma_char_index(cs: Seq<char>, i: int)
    requires
        0 <= i <= cs.len(),
    ensures
        char_index(cs, utf8_len(cs.take(i)) as int) == i,
{
    let b = utf8_len(cs.take(i)) as int;
    assert(is_boundary(cs, b));
    let j = char_index(cs, b);
    if j < i {
        lemma_utf8_strict(cs, j, i);
    } else if i < j {
        lemma_utf8_strict(cs, i, j);
    }
}


/// An inserted hyphen stands for one hyphen-minus in the text of a run, and a
/// glyph that continues the cluster before it stands for nothing more.
pub proof fn lemma_hyphens_and_cluster_tails(
    cs: Seq<char>,
    line: Seq<GlyphSource>,
    start: int,
    k: int,
    number: Seq<char>,
)
    requires
        start <= k < line.len(),
    ensures
        line[k].hyphen ==> pieces(cs, line, start, k + 1, number) == pieces(
            cs,
            line,
            start,
            k,
            number,
        ).push('-'),
        !line[k].hyphen && k > 0 && !line[k - 1].hyphen && line[k - 1].cluster >= line[k].cluster
            ==> pieces(cs, line, start, k + 1, number) == pieces(cs, line, start, k, number),
{
    assert(pieces(cs, line, start, k + 1, number) == pieces(cs, line, start, k, number) + piece(
        cs,
        line,
        k,
        number,
    ));
    if line[k].hyphen {
        assert(pieces(cs, line, start, k, number) + seq!['-'] =~= pieces(
            cs,
            line,
            start,
            k,
            number,
        ).push('-'));
    } else if k > 0 && !line[k - 1].hyphen && line[k - 1].cluster >= line[k].cluster {
        assert(pieces(cs, line, start, k, number) + Seq::<char>::empty() =~= pieces(
            cs,
            line,
            start,
            k,
            number,
        ));
    }
}

/// Page numbers are put in piece by piece: text without a marker stays as it is, a
/// marker becomes the number, and text joined from two parts gets its numbers in
/// each part.
pub proof fn lemma_numbers_go_in_marker_by_marker(a: Seq<char>, b: Seq<char>, number: Seq<char>)
    ensures
        with_number(a + b, number) == with_number(a, number) + with_number(b, number),
        with_number(seq![PAGE_NUMBER], number) == number,
        (forall|q: int| 0 <= q < a.len() ==> a[q] != PAGE_NUMBER) ==> with_number(a, number) == a,
    decreases b.len(),
{
    if b.len() > 0 {
        lemma_numbers_go_in_marker_by_marker(a, b.drop_last(), number);
        assert((a + b).drop_last() =~= a + b.drop_last());
        assert((a + b).last() == b.last());
    } else {
        assert(a + b =~= a);
        assert(with_number(b, number) =~= Seq::<char>::empty());
        assert(with_number(a, number) + Seq::<char>::empty() =~= with_number(a, number));
    }
    let m = seq![PAGE_NUMBER];
    assert(m.drop_last() =~= Seq::<char>::empty());
    assert(m.last() == PAGE_NUMBER);
    assert(with_number(Seq::<char>::empty(), number) == Seq::<char>::empty());
    assert(with_number(m, number) == with_number(m.drop_last(), number) + number);
    assert(Seq::<char>::empty() + number =~= number);
    lemma_no_marker(a, number);
}

proof fn lemma_no_marker(a: Seq<char>, number: Seq<char>)
    ensures
        (forall|q: int| 0 <= q < a.len() ==> a[q] != PAGE_NUMBER) ==> with_number(a, number) == a,
    decreases a.len(),
{
    if a.len() > 0 {
        lemma_no_marker(a.drop_last(), number);
        if forall|q: int| 0 <= q < a.len() ==> a[q] != PAGE_NUMBER {
            assert(a.drop_last() + seq![a.last()] =~= a);
            assert(forall|q: int| 0 <= q < a.drop_last().len() ==> a.drop_last()[q] == a[q]);
        }
    } else {
        assert(with_number(a, number) =~= a);
    }
}

/// The byte offset of each character boundary of `cs`.
fn boundaries(cs: &Vec<char>, total: usize) -> (r: Vec<usize>)
    requires
        total == utf8_len(cs@),
    ensures
        r@.len() == cs@.len() + 1,
        forall|i: int| 0 <= i <= cs@.len() ==> #[trigger] r@[i] == utf8_len(cs@.take(i)),
{
    let mut out: Vec<usize> = Vec::new();
    out.push(0);
    let mut b: usize = 0;
    let mut i: usize = 0;
    assert(cs@.take(0) =~= Seq::<char>::empty());
    while i < cs.len()
        invariant
            total == utf8_len(cs@),
            i <= cs@.len(),
            out@.len() == i + 1,
            b == utf8_len(cs@.take(i as int)),
            forall|j: int| 0 <= j <= i ==> #[trigger] out@[j] == utf8_len(cs@.take(j)),
        decreases cs@.len() - i,
    {
        proof {
            lemma_utf8_step(cs@, i as int);
            lemma_utf8_prefix_le(cs@, i + 1);
        }
        b = b + len_utf8(cs[i]);
        out.push(b);
        i = i + 1;
    }
    out
}

/// The character at the byte offset `b`, a boundary.
fn index_of_byte(offsets: &Vec<usize>, cs: Ghost<Seq<char>>, b: usize) -> (r: usize)
    requires
        offsets@.len() == cs@.len() + 1,
        forall|i: int| 0 <= i <= cs@.len() ==> #[trigger] offsets@[i] == utf8_len(cs@.take(i)),
        is_boundary(cs@, b as int),
    ensures
        r == char_index(cs@, b as int),
        r <= cs@.len(),
        utf8_len(cs@.take(r as int)) == b,
{
    let ghost k = choose|i: int| 0 <= i <= cs@.len() && utf8_len(#[trigger] cs@.take(i)) == b;
    proof {
        lemma_char_index(cs@, k);
    }
    let mut i: usize = 0;
    while i < offsets.len() && offsets[i] != b
        invariant
            offsets@.len() == cs@.len() + 1,
            forall|j: int| 0 <= j <= cs@.len() ==> #[trigger] offsets@[j] == utf8_len(cs@.take(j)),
            0 <= k <= cs@.len(),
            utf8_len(cs@.take(k)) == b,
            i <= k,
        decreases offsets@.len() - i,
    {
        assert(offsets@[k] == b);
        i = i + 1;
    }
    proof {
        if i < offsets@.len() {
            lemma_char_index(cs@, i as int);
        }
    }
    i
}

/// Appends `p` to `out`, whose UTF-8 length is `bytes`, and gives the new length.
fn append_chars(out: &mut Vec<char>, bytes: usize, p: &Vec<char>) -> (r: usize)
    requires
        bytes == utf8_len(old(out)@),
        utf8_len(old(out)@ + p@) <= usize::MAX,
    ensures
        final(out)@ == old(out)@ + p@,
        r == utf8_len(final(out)@),
{
    let ghost whole = old(out)@ + p@;
    let ghost n0 = old(out)@.len();
    let mut b = bytes;
    let mut i: usize = 0;
    assert(out@ =~= whole.take(n0 as int));
    while i < p.len()
        invariant
            i <= p@.len(),
            whole == old(out)@ + p@,
            n0 == old(out)@.len(),
            out@ == whole.take(n0 + i),
            b == utf8_len(out@),
            utf8_len(whole) <= usize::MAX,
        decreases p@.len() - i,
    {
        proof {
            lemma_utf8_step(whole, n0 + i);
            lemma_utf8_prefix_le(whole, n0 + i + 1);
            assert(whole[n0 + i] == p@[i as int]);
        }
        out.push(p[i]);
        b = b + len_utf8(p[i]);
        i = i + 1;
        assert(out@ =~= whole.take(n0 + i));
    }
    assert(whole.take(n0 + i) =~= whole);
    b
}

/// The text of more glyphs is no shorter.
proof fn lemma_pieces_grow(
    cs: Seq<char>,
    line: Seq<GlyphSource>,
    start: int,
    k: int,
    m: int,
    number: Seq<char>,
)
    requires
        start <= k <= m,
    ensures
        utf8_len(pieces(cs, line, start, k, number)) <= utf8_len(pieces(cs, line, start, m, number)),
    decreases m - k,
{
    if k < m {
        lemma_pieces_grow(cs, line, start, k, m - 1, number);
        lemma_encode_concat(pieces(cs, line, start, m - 1, number), piece(cs, line, m - 1, number));
    }
}

/// The piece of text that glyph `k` stands for when it starts a cluster: the
/// characters `a..w` with page number markers replaced.
fn marked(cs: &Vec<char>, a: usize, w: usize, num: &Vec<char>) -> (r: Vec<char>)
    requires
        a <= w <= cs@.len(),
    ensures
        r@ == with_number(cs@.subrange(a as int, w as int), num@),
{
    let mut out: Vec<char> = Vec::new();
    let mut i: usize = a;
    while i < w
        invariant
            a <= i <= w <= cs@.len(),
            out@ == with_number(cs@.subrange(a as int, i as int), num@),
        decreases w - i,
    {
        let ghost prev = out@;
        if cs[i] == PAGE_NUMBER {
            let mut d: usize = 0;
            while d < num.len()
                invariant
                    d <= num@.len(),
                    out@ == prev + num@.take(d as int),
                decreases num@.len() - d,
            {
                out.push(num[d]);
                d = d + 1;
                assert(out@ =~= prev + num@.take(d as int));
            }
            assert(num@.take(d as int) =~= num@);
        } else {
            out.push(cs[i]);
        }
        i = i + 1;
        proof {
            let s = cs@.subrange(a as int, i as int);
            assert(s.drop_last() =~= cs@.subrange(a as int, i - 1));
            assert(s.last() == cs@[i - 1]);
            assert(out@ =~= with_number(s, num@));
        }
    }
    out
}

/// The text that the glyphs `run` of `line` stand for and each glyph's byte range
/// in it: up to the next glyph's text or space, so a ligature stands for all its
/// letters. Spaces have no glyph; PDF readers find them in the gaps. A page number
/// marker stands for `number`.
pub fn source(text: &str, line: &[GlyphSource], run: Range<usize>, number: &str) -> (r: (
    String,
    Vec<Range<usize>>,
))
    requires
        run.start <= run.end <= line@.len(),
        cuts_in(text@, line@, run.start as int, run.end as int),
        utf8_len(pieces(text@, line@, run.start as int, run.end as int, number@)) <= usize::MAX,
    ensures
        r.0@ == pieces(text@, line@, run.start as int, run.end as int, number@),
        r.1@.len() == run.end - run.start,
        forall|j: int|
            0 <= j < r.1@.len() ==> (#[trigger] r.1@[j]).start == utf8_len(
                pieces(text@, line@, run.start as int, run.start + j, number@),
            ) && r.1@[j].end == utf8_len(
                pieces(text@, line@, run.start as int, run.start + j + 1, number@),
            ),
{
    let cs = chars_of(text);
    let total = text.as_bytes().len();
    let num = chars_of(number);
    let offsets = boundaries(&cs, total);
    let mut out: Vec<char> = Vec::new();
    let mut out_bytes: usize = 0;
    let mut ranges: Vec<Range<usize>> = Vec::new();
    let mut k: usize = run.start;
    assert(out@ =~= pieces(text@, line@, run.start as int, k as int, number@));
    while k < run.end
        invariant
            cs@ == text@,
            num@ == number@,
            total == utf8_len(cs@),
            offsets@.len() == cs@.len() + 1,
            forall|i: int| 0 <= i <= cs@.len() ==> #[trigger] offsets@[i] == utf8_len(cs@.take(i)),
            run.start <= k <= run.end <= line@.len(),
            utf8_len(pieces(text@, line@, run.start as int, run.end as int, number@))
                <= usize::MAX,
            cuts_in(text@, line@, run.start as int, run.end as int),
            out@ == pieces(text@, line@, run.start as int, k as int, number@),
            out_bytes == utf8_len(out@),
            ranges@.len() == k - run.start,
            forall|j: int|
                0 <= j < ranges@.len() ==> (#[trigger] ranges@[j]).start == utf8_len(
                    pieces(text@, line@, run.start as int, run.start + j, number@),
                ) && ranges@[j].end == utf8_len(
                    pieces(text@, line@, run.start as int, run.start + j + 1, number@),
                ),
        decreases run.end - k,
    {
        let g = line[k];
        let start = out_bytes;
        let mut p: Vec<char> = Vec::new();
        if g.hyphen {
            p.push('-');
            assert(p@ =~= piece(text@, line@, k as int, number@));
        } else if k == 0 || line[k - 1].hyphen || line[k - 1].cluster < g.cluster {
            let mut m: usize = k + 1;
            while m < line.len() && line[m].cluster <= g.cluster
                invariant
                    k < m <= line@.len(),
                    g == line@[k as int],
                    next_cluster(line@, k as int, m as int, total as int) == next_cluster(
                        line@,
                        k as int,
                        k + 1,
                        total as int,
                    ),
                decreases line@.len() - m,
            {
                m = m + 1;
            }
            let next = if m < line.len() {
                line[m].cluster
            } else {
                total
            };
            proof {
                assert(starts_cluster(line@, k as int));
                assert(is_boundary(cs@, line@[k as int].cluster as int));
                if m < line@.len() {
                    assert(next == next_cluster(line@, k as int, k + 1, total as int));
                } else {
                    assert(next == next_cluster(line@, k as int, k + 1, total as int));
                }
                assert(is_boundary(cs@, next as int));
            }
            let a = index_of_byte(&offsets, Ghost(cs@), g.cluster);
            let e = index_of_byte(&offsets, Ghost(cs@), next);
            proof {
                lemma_utf8_prefix_le(cs@, a as int);
                assert(next >= g.cluster);
                if a > e {
                    lemma_utf8_strict(cs@, e as int, a as int);
                }
            }
            let mut w: usize = a;
            while w < e && !is_whitespace(cs[w])
                invariant
                    a <= w <= e,
                    e <= cs@.len(),
                    space_at(cs@, w as int, e as int) == space_at(cs@, a as int, e as int),
                decreases e - w,
            {
                w = w + 1;
            }
            assert(w == space_at(cs@, a as int, e as int));
            p = marked(&cs, a, w, &num);
            assert(p@ =~= piece(text@, line@, k as int, number@));
        } else {
            assert(p@ =~= piece(text@, line@, k as int, number@));
        }
        proof {
            assert(out@ + p@ =~= pieces(text@, line@, run.start as int, k + 1, number@));
            lemma_pieces_grow(text@, line@, run.start as int, k + 1, run.end as int, number@);
        }
        out_bytes = append_chars(&mut out, out_bytes, &p);
        ranges.push(start..out_bytes);
        proof {
            assert(out@ =~= pieces(text@, line@, run.start as int, k + 1, number@));
        }
        k = k + 1;
    }
    (string_of(out.as_slice()), ranges)
}

} // verus!
