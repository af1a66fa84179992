//! The binary display list that the canvas renderer reads without copying.
//!
//! Every number that the renderer reads as a float is held here by its IEEE 754
//! bits, as the encoding writes them; the layout code turns its floats into bits.
use vstd::prelude::*;

verus! {

/// A paint; gradients map their unit space into page space with `transform`
/// [a b c d e f]: linear runs from (0, 0) to (1, 0), radial is the unit circle
/// around (0, 0). Colours are RGBA, each component the bits of an `f32`.
pub enum Paint {
    Solid { color: [u32; 4] },
    Linear { transform: [u32; 6], stops: Vec<Stop> },
    Radial { transform: [u32; 6], stops: Vec<Stop> },
}

pub struct Stop {
    pub at: u32,
    pub color: [u32; 4],
}

pub struct Shadow {
    pub offset: [u32; 2],
    pub blur: u32,
    pub color: [u32; 4],
}

/// One drawing operation. Paths are the bits of `f32` commands and coordinates.
pub enum Op {
    Page { width: u32, height: u32, bleed: u32 },
    BeginItem { item: u32 },
    EndItem,
    FillPath { paint: Paint, path: Vec<u32> },
    GlyphRun { font: u32, size: u32, paint: Paint, glyphs: Vec<u16>, positions: Vec<u32> },
    Image { image: u32, rect: [u32; 4] },
    PushClip { path: Vec<u32>, invert: bool },
    PopClip,
    StrokePath { paint: Paint, width: u32, cap: u32, join: u32, path: Vec<u32> },
    /// Blur and shadow blurs are Gaussian sigmas in pt.
    PushLayer { opacity: u32, blend: u32, blur: u32, shadows: Vec<Shadow> },
    PopLayer,
    /// The ops up to `EndMask` are an alpha mask for the ops up to `PopMask`.
    BeginMask,
    EndMask,
    PopMask,
}

/// An op that opens a bracket that a later op closes.
pub open spec fn is_opener(op: Op) -> bool {
    op is PushClip || op is PushLayer || op is BeginMask || op is BeginItem
}

/// An op that closes a bracket; `EndMask` closes the mask and opens its content.
pub open spec fn is_closer(op: Op) -> bool {
    op is PopClip || op is PopLayer || op is PopMask || op is EndItem || op is EndMask
}

/// How an op changes the nesting depth.
pub open spec fn depth_change(op: Op) -> int {
    if is_opener(op) {
        1
    } else if op is EndMask {
        0
    } else if is_closer(op) {
        -1
    } else {
        0
    }
}

/// The depth before `ops[b]` of the bracket that `ops[a - 1]` opened.
pub open spec fn level(ops: Seq<Op>, a: int, b: int) -> int
    decreases b - a,
{
    if b <= a {
        1
    } else {
        level(ops, a, b - 1) + depth_change(ops[b - 1])
    }
}

/// `ops[i]` closes the bracket opened at `at`.
pub open spec fn closes_at(ops: Seq<Op>, at: int, i: int) -> bool {
    at < i < ops.len() && is_closer(ops[i]) && level(ops, at + 1, i) == 1
}

/// Index of the op that closes the one opened at `at`, or the length of `ops`
/// when none does. `EndMask` closes `BeginMask` and opens up to `PopMask`.
pub fn close(ops: &[Op], at: usize) -> (r: usize)
    requires
        at < usize::MAX,
    ensures
        r <= ops@.len(),
        at < ops@.len() ==> at < r,
        r < ops@.len() ==> closes_at(ops@, at as int, r as int),
        forall|k: int| at < k < r ==> !closes_at(ops@, at as int, k),
{
    let n = ops.len();
    if at >= n {
        return n;
    }
    let mut depth: usize = 1;
    let mut i: usize = at + 1;
    while i < ops.len()
        invariant
            at < i <= ops@.len(),
            depth as int == level(ops@, at + 1, i as int),
            1 <= depth <= i - at,
            forall|k: int| at < k < i ==> !closes_at(ops@, at as int, k),
        decreases ops@.len() - i,
    {
        let ghost before = level(ops@, at + 1, i as int);
        match &ops[i] {
            Op::PopClip | Op::PopLayer | Op::PopMask | Op::EndItem => {
                if depth == 1 {
                    return i;
                }
                depth = depth - 1;
            },
            Op::EndMask => {
                if depth == 1 {
                    return i;
                }
            },
            Op::PushClip { .. } | Op::PushLayer { .. } | Op::BeginMask | Op::BeginItem { .. } => {
                depth = depth + 1;
            },
            _ => {},
        }
        assert(level(ops@, at + 1, i + 1) == before + depth_change(ops@[i as int]));
        i = i + 1;
    }
    ops.len()
}


/// One step of the 32-bit FNV-1a hash over words.
pub open spec fn fnv_step(h: u32, w: u32) -> u32 {
    (((h ^ w) as int * 0x01000193) % 0x100000000) as u32
}

/// The 32-bit FNV-1a hash of `words`, a word at a time.
pub open spec fn fnv32(words: Seq<u32>) -> u32
    decreases words.len(),
{
    if words.len() == 0 {
        0x811c9dc5
    } else {
        fnv_step(fnv32(words.drop_last()), words.last())
    }
}

pub open spec fn stop_words(stops: Seq<Stop>) -> Seq<u32>
    decreases stops.len(),
{
    if stops.len() == 0 {
        Seq::empty()
    } else {
        stop_words(stops.drop_last()) + seq![stops.last().at] + stops.last().color@
    }
}

/// The words of a paint: its kind, then its colour, or its transform and stops.
pub open spec fn paint_words(p: Paint) -> Seq<u32> {
    match p {
        Paint::Solid { color } => seq![0u32] + color@,
        Paint::Linear { transform, stops } => seq![1u32] + transform@ + seq![
            stops@.len() as u32,
        ] + stop_words(stops@),
        Paint::Radial { transform, stops } => seq![2u32] + transform@ + seq![
            stops@.len() as u32,
        ] + stop_words(stops@),
    }
}

/// Glyph ids two to a word, the first in the low half.
pub open spec fn glyph_words(glyphs: Seq<u16>) -> Seq<u32> {
    Seq::new(
        ((glyphs.len() + 1) / 2) as nat,
        |k: int|
            (glyphs[2 * k] as int + if 2 * k + 1 < glyphs.len() {
                glyphs[2 * k + 1] as int * 0x10000
            } else {
                0
            }) as u32,
    )
}

pub open spec fn shadow_words(shadows: Seq<Shadow>) -> Seq<u32>
    decreases shadows.len(),
{
    if shadows.len() == 0 {
        Seq::empty()
    } else {
        shadow_words(shadows.drop_last()) + shadows.last().offset@ + seq![shadows.last().blur]
            + shadows.last().color@
    }
}

/// The words an op appends; the hash word of an item or layer is 0 until the op
/// that closes it writes it.
pub open spec fn op_words(op: Op) -> Seq<u32> {
    match op {
        Op::Page { width, height, bleed } => seq![0u32, width, height, bleed],
        Op::BeginItem { item } => seq![1u32, item, 0u32],
        Op::EndItem => seq![2u32],
        Op::FillPath { paint, path } => seq![3u32] + paint_words(paint) + seq![
            path@.len() as u32,
        ] + path@,
        Op::GlyphRun { font, size, paint, glyphs, positions } => seq![4u32, font, size]
            + paint_words(paint) + seq![glyphs@.len() as u32] + glyph_words(glyphs@)
            + positions@,
        Op::Image { image, rect } => seq![5u32, image] + rect@,
        Op::PushClip { path, invert } => seq![
            6u32,
            if invert {
                1u32
            } else {
                0u32
            },
            path@.len() as u32,
        ] + path@,
        Op::PopClip => seq![7u32],
        Op::StrokePath { paint, width, cap, join, path } => seq![8u32] + paint_words(paint)
            + seq![width, cap, join, path@.len() as u32] + path@,
        Op::PushLayer { opacity, blend, blur, shadows } => seq![
            9u32,
            0u32,
            opacity,
            blend,
            blur,
            shadows@.len() as u32,
        ] + shadow_words(shadows@),
        Op::PopLayer => seq![10u32],
        Op::BeginMask => seq![11u32],
        Op::EndMask => seq![12u32],
        Op::PopMask => seq![13u32],
    }
}

/// Ops that open a hashed bracket: items and layers.
pub open spec fn opens_hash(op: Op) -> bool {
    op is BeginItem || op is PushLayer
}

/// Ops that close a hashed bracket and write its hash.
pub open spec fn seals(op: Op) -> bool {
    op is EndItem || op is PopLayer
}

/// The hashed brackets open after `ops`.
pub open spec fn open_count(ops: Seq<Op>) -> int
    decreases ops.len(),
{
    if ops.len() == 0 {
        0
    } else {
        open_count(ops.drop_last()) + if opens_hash(ops.last()) {
            1int
        } else if seals(ops.last()) {
            -1int
        } else {
            0int
        }
    }
}

/// Every op that closes an item or a layer finds one open.
pub open spec fn sealable(ops: Seq<Op>) -> bool {
    forall|i: int| 0 <= i < ops.len() && #[trigger] seals(ops[i]) ==> open_count(ops.take(i)) > 0
}

/// `out` with the hash of the words from `start` on written into the word before
/// them.
pub open spec fn sealed(out: Seq<u32>, start: int) -> Seq<u32> {
    out.update(start - 1, fnv32(out.subrange(start, out.len() as int)))
}

/// One op of the encoder: the words it writes and how it changes the open brackets.
pub open spec fn step(st: (Seq<u32>, Seq<int>), op: Op) -> (Seq<u32>, Seq<int>) {
    let (out, open) = st;
    if seals(op) {
        (sealed(out, open.last()).push(op_words(op)[0]), open.drop_last())
    } else if op is BeginItem {
        (out + op_words(op), open.push(out.len() + 3int))
    } else if op is PushLayer {
        (out + op_words(op), open.push(out.len() + 2int))
    } else {
        (out + op_words(op), open)
    }
}

/// The words written so far and where the content of each open item or layer
/// starts, after encoding `ops`.
pub open spec fn encoding(ops: Seq<Op>) -> (Seq<u32>, Seq<int>)
    decreases ops.len(),
{
    if ops.len() == 0 {
        (Seq::empty(), Seq::empty())
    } else {
        step(encoding(ops.drop_last()), ops.last())
    }
}

/// The open entries of an encoding state point into its words past the first.
pub open spec fn state_wf(st: (Seq<u32>, Seq<int>)) -> bool {
    forall|j: int| 0 <= j < st.1.len() ==> 1 <= #[trigger] st.1[j] <= st.0.len()
}

proof fn lemma_sealable_prefix(ops: Seq<Op>, n: int)
    requires
        sealable(ops),
        0 <= n <= ops.len(),
    ensures
        sealable(ops.take(n)),
{
    assert forall|i: int| 0 <= i < ops.take(n).len() && #[trigger] seals(ops.take(n)[i]) implies open_count(
        ops.take(n).take(i),
    ) > 0 by {
        assert(ops.take(n).take(i) =~= ops.take(i));
        assert(ops.take(n)[i] == ops[i]);
    }
}

/// Encoding a sealable list keeps one start per open bracket, each inside the words.
proof fn lemma_encoding_wf(ops: Seq<Op>)
    requires
        sealable(ops),
    ensures
        state_wf(encoding(ops)),
        encoding(ops).1.len() == open_count(ops),
    decreases ops.len(),
{
    if ops.len() > 0 {
        let prev = ops.drop_last();
        lemma_sealable_prefix(ops, ops.len() - 1);
        assert(ops.take(ops.len() - 1) =~= prev);
        lemma_encoding_wf(prev);
        let last = ops.len() - 1;
        if seals(ops[last]) {
            assert(open_count(ops.take(last)) > 0);
        }
        let (out, open) = encoding(prev);
        let op = ops.last();
        assert(op_words(op).len() >= 1);
    }
}

fn push_all(out: &mut Vec<u32>, v: &[u32])
    ensures
        final(out)@ == old(out)@ + v@,
{
    let mut i: usize = 0;
    while i < v.len()
        invariant
            i <= v@.len(),
            out@ == old(out)@ + v@.take(i as int),
        decreases v@.len() - i,
    {
        out.push(v[i]);
        i = i + 1;
        assert(v@.take(i as int) =~= v@.take(i - 1) + seq![v@[i - 1]]);
    }
    assert(v@.take(v@.len() as int) =~= v@);
}

fn push_stops(out: &mut Vec<u32>, stops: &Vec<Stop>)
    ensures
        final(out)@ == old(out)@ + stop_words(stops@),
{
    let mut i: usize = 0;
    while i < stops.len()
        invariant
            i <= stops@.len(),
            out@ == old(out)@ + stop_words(stops@.take(i as int)),
        decreases stops@.len() - i,
    {
        let ghost before = out@;
        out.push(stops[i].at);
        push_all(out, stops[i].color.as_slice());
        i = i + 1;
        assert(stops@.take(i as int).drop_last() =~= stops@.take(i - 1));
        assert(out@ =~= before + seq![stops@[i - 1].at] + stops@[i - 1].color@);
    }
    assert(stops@.take(stops@.len() as int) =~= stops@);
}

fn push_shadows(out: &mut Vec<u32>, shadows: &Vec<Shadow>)
    ensures
        final(out)@ == old(out)@ + shadow_words(shadows@),
{
    let mut i: usize = 0;
    while i < shadows.len()
        invariant
            i <= shadows@.len(),
            out@ == old(out)@ + shadow_words(shadows@.take(i as int)),
        decreases shadows@.len() - i,
    {
        let ghost before = out@;
        push_all(out, shadows[i].offset.as_slice());
        out.push(shadows[i].blur);
        push_all(out, shadows[i].color.as_slice());
        i = i + 1;
        assert(shadows@.take(i as int).drop_last() =~= shadows@.take(i - 1));
        assert(out@ =~= before + shadows@[i - 1].offset@ + seq![shadows@[i - 1].blur]
            + shadows@[i - 1].color@);
    }
    assert(shadows@.take(shadows@.len() as int) =~= shadows@);
}

fn push_glyphs(out: &mut Vec<u32>, glyphs: &Vec<u16>)
    ensures
        final(out)@ == old(out)@ + glyph_words(glyphs@),
{
    let n = glyphs.len();
    let words = n / 2 + n % 2;
    let mut j: usize = 0;
    while j < words
        invariant
            n == glyphs@.len(),
            words == (n + 1) / 2,
            j <= words,
            out@ == old(out)@ + glyph_words(glyphs@).take(j as int),
        decreases words - j,
    {
        let a = glyphs[2 * j];
        let b: u16 = if 2 * j + 1 < n {
            glyphs[2 * j + 1]
        } else {
            0
        };
        let w = a as u32 | (b as u32) << 16;
        assert(a as u32 | (b as u32) << 16 == a as int + b as int * 0x10000) by (bit_vector);
        out.push(w);
        assert(glyph_words(glyphs@).take(j + 1) =~= glyph_words(glyphs@).take(j as int).push(w));
        j = j + 1;
    }
    assert(glyph_words(glyphs@).take(j as int) =~= glyph_words(glyphs@));
}

fn push_paint(out: &mut Vec<u32>, p: &Paint)
    ensures
        final(out)@ == old(out)@ + paint_words(*p),
{
    let ghost before = out@;
    match p {
        Paint::Solid { color } => {
            out.push(0);
            push_all(out, color.as_slice());
            assert(out@ =~= before + paint_words(*p));
        },
        Paint::Linear { transform, stops } => {
            out.push(1);
            push_all(out, transform.as_slice());
            out.push(stops.len() as u32);
            push_stops(out, stops);
            assert(out@ =~= before + paint_words(*p));
        },
        Paint::Radial { transform, stops } => {
            out.push(2);
            push_all(out, transform.as_slice());
            out.push(stops.len() as u32);
            push_stops(out, stops);
            assert(out@ =~= before + paint_words(*p));
        },
    }
}

/// Sealing at `t` writes, into the word before `t`, the FNV-1a hash of the words
/// from `t` to the end, folded from the first of them on, and leaves every other
/// word as it is.
pub proof fn lemma_sealed(out: Seq<u32>, t: int)
    requires
        1 <= t <= out.len(),
    ensures
        sealed(out, t).len() == out.len(),
        sealed(out, t)[t - 1] == fnv32(out.subrange(t, out.len() as int)),
        forall|j: int| 0 <= j < out.len() && j != t - 1 ==> #[trigger] sealed(out, t)[j] == out[j],
{
}

/// Writes the hash of the words since the innermost open item or layer into the
/// word before them.
fn seal(out: &mut Vec<u32>, open: &mut Vec<usize>)
    requires
        old(open)@.len() > 0,
        1 <= old(open)@.last() <= old(out)@.len(),
    ensures
        final(open)@ == old(open)@.drop_last(),
        final(out)@ == sealed(old(out)@, old(open)@.last() as int),
{
    let start = open.pop().unwrap();
    let mut h: u32 = 0x811c9dc5;
    let mut k: usize = start;
    while k < out.len()
        invariant
            start <= k <= out@.len(),
            out@ == old(out)@,
            h == fnv32(out@.subrange(start as int, k as int)),
        decreases out@.len() - k,
    {
        assert(out@.subrange(start as int, k + 1).drop_last() =~= out@.subrange(
            start as int,
            k as int,
        ));
        h = (h ^ out[k]).wrapping_mul(0x01000193);
        k = k + 1;
    }
    out.set(start - 1, h);
}

/// The display list `ops` as words: an op code and the op's fields, floats by
/// their bits. Each item and layer is preceded by the hash of its content.
pub fn encode(ops: &[Op]) -> (r: Vec<u32>)
    requires
        sealable(ops@),
    ensures
        r@ == encoding(ops@).0,
{
    let mut out: Vec<u32> = Vec::new();
    let mut open: Vec<usize> = Vec::new();
    let mut i: usize = 0;
    while i < ops.len()
        invariant
            i <= ops@.len(),
            sealable(ops@),
            out@ == encoding(ops@.take(i as int)).0,
            open@.len() == encoding(ops@.take(i as int)).1.len(),
            forall|j: int|
                0 <= j < open@.len() ==> open@[j] as int == #[trigger] encoding(
                    ops@.take(i as int),
                ).1[j],
        decreases ops@.len() - i,
    {
        proof {
            lemma_sealable_prefix(ops@, i as int);
            lemma_encoding_wf(ops@.take(i as int));
            assert(ops@.take(i + 1).drop_last() =~= ops@.take(i as int));
            assert(ops@.take(i + 1).take(i as int) =~= ops@.take(i as int));
        }
        let ghost st = encoding(ops@.take(i as int));
        let ghost before = out@;
        let op = &ops[i];
        match op {
            Op::Page { width, height, bleed } => {
                out.push(0);
                out.push(*width);
                out.push(*height);
                out.push(*bleed);
            },
            Op::BeginItem { item } => {
                out.push(1);
                out.push(*item);
                out.push(0);
                open.push(out.len());
            },
            Op::EndItem => {
                proof {
                    assert(seals(ops@[i as int]));
                    assert(open_count(ops@.take(i as int)) > 0);
                    assert(open@.last() as int == st.1.last());
                }
                seal(&mut out, &mut open);
                out.push(2);
            },
            Op::FillPath { paint, path } => {
                out.push(3);
                push_paint(&mut out, paint);
                out.push(path.len() as u32);
                push_all(&mut out, path.as_slice());
            },
            Op::GlyphRun { font, size, paint, glyphs, positions } => {
                out.push(4);
                out.push(*font);
                out.push(*size);
                push_paint(&mut out, paint);
                out.push(glyphs.len() as u32);
                push_glyphs(&mut out, glyphs);
                push_all(&mut out, positions.as_slice());
            },
            Op::Image { image, rect } => {
                out.push(5);
                out.push(*image);
                push_all(&mut out, rect.as_slice());
            },
            Op::PushClip { path, invert } => {
                out.push(6);
                out.push(if *invert {
                    1
                } else {
                    0
                });
                out.push(path.len() as u32);
                push_all(&mut out, path.as_slice());
            },
            Op::PopClip => out.push(7),
            Op::StrokePath { paint, width, cap, join, path } => {
                out.push(8);
                push_paint(&mut out, paint);
                out.push(*width);
                out.push(*cap);
                out.push(*join);
                out.push(path.len() as u32);
                push_all(&mut out, path.as_slice());
            },
            Op::PushLayer { opacity, blend, blur, shadows } => {
                out.push(9);
                out.push(0);
                open.push(out.len());
                out.push(*opacity);
                out.push(*blend);
                out.push(*blur);
                out.push(shadows.len() as u32);
                push_shadows(&mut out, shadows);
            },
            Op::PopLayer => {
                proof {
                    assert(seals(ops@[i as int]));
                    assert(open_count(ops@.take(i as int)) > 0);
                    assert(open@.last() as int == st.1.last());
                }
                seal(&mut out, &mut open);
                out.push(10);
            },
            Op::BeginMask => out.push(11),
            Op::EndMask => out.push(12),
            Op::PopMask => out.push(13),
        }
        proof {
            let next = encoding(ops@.take(i + 1));
            assert(out@ =~= next.0);
            assert(open@.len() == next.1.len());
        }
        i = i + 1;
    }
    assert(ops@.take(ops@.len() as int) =~= ops@);
    out
}


proof fn lemma_step(ops: Seq<Op>, k: int)
    requires
        0 <= k < ops.len(),
    ensures
        encoding(ops.take(k + 1)) == step(encoding(ops.take(k)), ops[k]),
{
    assert(ops.take(k + 1).drop_last() =~= ops.take(k));
    assert(ops.take(k + 1).last() == ops[k]);
}

proof fn lemma_prefix_wf(ops: Seq<Op>, k: int)
    requires
        sealable(ops),
        0 <= k <= ops.len(),
    ensures
        state_wf(encoding(ops.take(k))),
        encoding(ops.take(k)).1.len() == open_count(ops.take(k)),
{
    lemma_sealable_prefix(ops, k);
    lemma_encoding_wf(ops.take(k));
}

proof fn lemma_open_count_step(ops: Seq<Op>, k: int)
    requires
        0 <= k < ops.len(),
    ensures
        open_count(ops.take(k + 1)) == open_count(ops.take(k)) + if opens_hash(ops[k]) {
            1int
        } else if seals(ops[k]) {
            -1int
        } else {
            0int
        },
{
    assert(ops.take(k + 1).drop_last() =~= ops.take(k));
}

/// Between an item or layer opened at `b` and the op at `k`, the brackets below
/// and the start of its content stay where they are.
proof fn lemma_inside(ops: Seq<Op>, b: int, k: int)
    requires
        sealable(ops),
        0 <= b < k <= ops.len(),
        opens_hash(ops[b]),
        forall|m: int| b < m <= k ==> #[trigger] open_count(ops.take(m)) > open_count(ops.take(b)),
    ensures
        encoding(ops.take(k)).1.len() >= open_count(ops.take(b)) + 1,
        encoding(ops.take(k)).1.take(open_count(ops.take(b)) + 1) == encoding(ops.take(b + 1)).1,
    decreases k - b,
{
    let c = open_count(ops.take(b));
    lemma_prefix_wf(ops, b);
    lemma_prefix_wf(ops, b + 1);
    lemma_prefix_wf(ops, k);
    lemma_open_count_step(ops, b);
    assert(open_count(ops.take(k)) > c);
    if k == b + 1 {
        assert(encoding(ops.take(k)).1.take(c + 1) =~= encoding(ops.take(k)).1);
    } else {
        lemma_inside(ops, b, k - 1);
        lemma_step(ops, k - 1);
        lemma_prefix_wf(ops, k - 1);
        lemma_open_count_step(ops, k - 1);
        let prev = encoding(ops.take(k - 1)).1;
        let cur = encoding(ops.take(k)).1;
        assert(cur.take(c + 1) =~= prev.take(c + 1));
    }
}

/// The words from `s - 1` up to `p` no longer change, as every open bracket
/// writes its hash before `s - 1` or after `p`.
pub open spec fn frozen(st: (Seq<u32>, Seq<int>), s: int, p: int) -> bool {
    &&& st.0.len() >= p + 1
    &&& forall|j: int| 0 <= j < st.1.len() ==> #[trigger] st.1[j] <= s - 2 || st.1[j] >= p + 2
}

proof fn lemma_after(ops: Seq<Op>, s: int, p: int, k0: int, k: int)
    requires
        sealable(ops),
        0 <= k0 <= k <= ops.len(),
        1 <= s <= p,
        frozen(encoding(ops.take(k0)), s, p),
    ensures
        frozen(encoding(ops.take(k)), s, p),
        encoding(ops.take(k)).0.subrange(s - 1, p) == encoding(ops.take(k0)).0.subrange(s - 1, p),
    decreases k - k0,
{
    if k > k0 {
        lemma_after(ops, s, p, k0, k - 1);
        lemma_step(ops, k - 1);
        lemma_prefix_wf(ops, k - 1);
        lemma_open_count_step(ops, k - 1);
        let prev = encoding(ops.take(k - 1));
        let cur = encoding(ops.take(k));
        let op = ops[k - 1];
        assert(op_words(op).len() >= 1);
        if seals(op) {
            assert(open_count(ops.take(k - 1)) > 0);
            let at = prev.1.last();
            assert(prev.1[prev.1.len() - 1] == at);
            assert(cur.0.subrange(s - 1, p) =~= prev.0.subrange(s - 1, p));
            assert forall|j: int| 0 <= j < cur.1.len() implies #[trigger] cur.1[j] <= s - 2
                || cur.1[j] >= p + 2 by {
                assert(cur.1[j] == prev.1[j]);
            }
        } else {
            assert(cur.0.subrange(s - 1, p) =~= prev.0.subrange(s - 1, p));
            assert forall|j: int| 0 <= j < cur.1.len() implies #[trigger] cur.1[j] <= s - 2
                || cur.1[j] >= p + 2 by {
                if j < prev.1.len() {
                    assert(cur.1[j] == prev.1[j]);
                }
            }
        }
    }
}

/// Where the content of the item or layer opened by `ops[b]` starts in the words.
pub open spec fn content_start(ops: Seq<Op>, b: int) -> int {
    encoding(ops.take(b)).0.len() + if ops[b] is BeginItem {
        3int
    } else {
        2int
    }
}

/// `ops[e]` ends the item or layer that `ops[b]` opens.
pub open spec fn ends_bracket(ops: Seq<Op>, b: int, e: int) -> bool {
    &&& 0 <= b < e < ops.len()
    &&& opens_hash(ops[b])
    &&& seals(ops[e])
    &&& open_count(ops.take(e)) == open_count(ops.take(b)) + 1
    &&& forall|m: int| b < m <= e ==> #[trigger] open_count(ops.take(m)) > open_count(ops.take(b))
}

/// In the encoding of a display list, the word before the content of an item or a
/// layer is the FNV-1a hash of the words of that content, up to the op that ends
/// it, whatever comes before or after: the renderer can cache an item by it.
pub proof fn lemma_hash_covers_content(ops: Seq<Op>, b: int, e: int)
    requires
        sealable(ops),
        ends_bracket(ops, b, e),
    ensures
        encoding(ops).0[content_start(ops, b) - 1] == fnv32(
            encoding(ops).0.subrange(content_start(ops, b), encoding(ops.take(e)).0.len() as int),
        ),
{
    let c = open_count(ops.take(b));
    let s = content_start(ops, b);
    let pe = encoding(ops.take(e));
    let p = pe.0.len() as int;
    lemma_prefix_wf(ops, b);
    lemma_prefix_wf(ops, e);
    lemma_prefix_wf(ops, e + 1);
    lemma_step(ops, b);
    lemma_step(ops, e);
    lemma_inside(ops, b, e);
    lemma_open_count_step(ops, e);
    let sb = encoding(ops.take(b));
    let sb1 = encoding(ops.take(b + 1));
    assert(sb1.1.len() == c + 1);
    assert(sb1.1.last() == s);
    assert(pe.1.take(c + 1) == sb1.1);
    assert(pe.1.len() == c + 1);
    assert(pe.1.last() == pe.1.take(c + 1)[c]);
    assert(pe.1.last() == s);
    // the content lies inside the words written up to `e`
    assert(1 <= s <= p) by {
        assert(pe.1[c] == s);
    }
    let se1 = encoding(ops.take(e + 1));
    assert(se1.0[s - 1] == fnv32(pe.0.subrange(s, p)));
    assert(se1.0.subrange(s, p) =~= pe.0.subrange(s, p));
    // every bracket still open after `e` was opened before `b` and writes below `s - 1`
    assert forall|j: int| 0 <= j < se1.1.len() implies #[trigger] se1.1[j] <= s - 2
        || se1.1[j] >= p + 2 by {
        assert(se1.1[j] == pe.1[j]);
        assert(pe.1[j] == pe.1.take(c + 1)[j]);
        assert(sb1.1[j] == sb.1[j]);
        assert(sb.1[j] <= sb.0.len());
    }
    lemma_after(ops, s, p, e + 1, ops.len() as int);
    assert(ops.take(ops.len() as int) =~= ops);
    let fin = encoding(ops).0;
    assert(fin.subrange(s - 1, p) == se1.0.subrange(s - 1, p));
    assert(fin[s - 1] == fin.subrange(s - 1, p)[0]);
    assert(fin.subrange(s, p) =~= fin.subrange(s - 1, p).subrange(1, p - s + 1));
    assert(se1.0.subrange(s, p) =~= se1.0.subrange(s - 1, p).subrange(1, p - s + 1));
}

/// The op code that the renderer reads first for each op.
pub open spec fn op_code(op: Op) -> u32 {
    match op {
        Op::Page { .. } => 0,
        Op::BeginItem { .. } => 1,
        Op::EndItem => 2,
        Op::FillPath { .. } => 3,
        Op::GlyphRun { .. } => 4,
        Op::Image { .. } => 5,
        Op::PushClip { .. } => 6,
        Op::PopClip => 7,
        Op::StrokePath { .. } => 8,
        Op::PushLayer { .. } => 9,
        Op::PopLayer => 10,
        Op::BeginMask => 11,
        Op::EndMask => 12,
        Op::PopMask => 13,
    }
}

/// The word that tells the renderer the kind of a paint.
pub open spec fn paint_kind(p: Paint) -> u32 {
    match p {
        Paint::Solid { .. } => 0,
        Paint::Linear { .. } => 1,
        Paint::Radial { .. } => 2,
    }
}

/// A paint as the renderer reads it from `words` at `at`: its kind word, then its
/// colour for a solid paint, or its transform and number of stops for a gradient.
pub open spec fn reads_paint(words: Seq<u32>, at: int, p: Paint) -> bool {
    &&& 0 <= at
    &&& words[at] == paint_kind(p)
    &&& match p {
        Paint::Solid { color } => forall|k: int| 0 <= k < 4 ==> words[at + 1 + k] == #[trigger] color@[k],
        Paint::Linear { transform, stops } | Paint::Radial { transform, stops } => {
            &&& forall|k: int| 0 <= k < 6 ==> words[at + 1 + k] == #[trigger] transform@[k]
            &&& words[at + 7] == stops@.len() as u32
        },
    }
}

proof fn lemma_paint_words(p: Paint)
    ensures
        reads_paint(paint_words(p), 0, p),
        paint_words(p).len() >= if p is Solid {
            5int
        } else {
            8int
        },
{
    match p {
        Paint::Solid { color } => {
            assert forall|k: int| 0 <= k < 4 implies paint_words(p)[0 + 1 + k] == #[trigger] color@[k] by {
            }
        },
        Paint::Linear { transform, stops } => {
            assert forall|k: int| 0 <= k < 6 implies paint_words(p)[0 + 1 + k] == #[trigger] transform@[k] by {
            }
        },
        Paint::Radial { transform, stops } => {
            assert forall|k: int| 0 <= k < 6 implies paint_words(p)[0 + 1 + k] == #[trigger] transform@[k] by {
            }
        },
    }
}

/// Words that hold the words of a paint at `base` read as that paint there.
proof fn lemma_reads_shift(words: Seq<u32>, base: int, p: Paint)
    requires
        0 <= base,
        base + paint_words(p).len() <= words.len(),
        forall|j: int| 0 <= j < paint_words(p).len() ==> words[base + j] == #[trigger] paint_words(p)[j],
    ensures
        reads_paint(words, base, p),
{
    lemma_paint_words(p);
    let pw = paint_words(p);
    assert(words[base + 0] == pw[0]);
    match p {
        Paint::Solid { color } => {
            assert forall|k: int| 0 <= k < 4 implies words[base + 1 + k] == #[trigger] color@[k] by {
                assert(words[base + (1 + k)] == pw[1 + k]);
                assert(pw[0 + 1 + k] == color@[k]);
            }
        },
        Paint::Linear { transform, stops } => {
            assert forall|k: int| 0 <= k < 6 implies words[base + 1 + k] == #[trigger] transform@[k] by {
                assert(words[base + (1 + k)] == pw[1 + k]);
                assert(pw[0 + 1 + k] == transform@[k]);
            }
            assert(words[base + 7] == pw[7]);
        },
        Paint::Radial { transform, stops } => {
            assert forall|k: int| 0 <= k < 6 implies words[base + 1 + k] == #[trigger] transform@[k] by {
                assert(words[base + (1 + k)] == pw[1 + k]);
                assert(pw[0 + 1 + k] == transform@[k]);
            }
            assert(words[base + 7] == pw[7]);
        },
    }
}

/// Encoding one more op writes after the words so far, first the op's code; a path,
/// glyph run or stroke then gives its paint by its kind (0 solid, 1 linear,
/// 2 radial) and its colour or gradient; fonts and sizes of glyph runs come before
/// the paint.
pub proof fn lemma_each_op_starts_with_its_code(ops: Seq<Op>, op: Op)
    requires
        sealable(ops.push(op)),
    ensures
        ({
            let before = encoding(ops).0;
            let after = encoding(ops.push(op)).0;
            let n = before.len() as int;
            &&& after.len() > n
            &&& after[n] == op_code(op)
            &&& (op matches Op::FillPath { paint, .. } ==> reads_paint(after, n + 1, paint))
            &&& (op matches Op::StrokePath { paint, .. } ==> reads_paint(after, n + 1, paint))
            &&& (op matches Op::GlyphRun { font, size, paint, .. } ==> after[n + 1] == font
                && after[n + 2] == size && reads_paint(after, n + 3, paint))
        }),
{
    let all = ops.push(op);
    lemma_prefix_wf(all, ops.len() as int);
    assert(all.take(ops.len() as int) =~= ops);
    lemma_step(all, ops.len() as int);
    assert(all.take(ops.len() as int + 1) =~= all);
    let st = encoding(ops);
    let before = st.0;
    let after = encoding(all).0;
    let n = before.len() as int;
    assert(after == step(st, op).0);
    if seals(op) {
        assert(open_count(all.take(ops.len() as int)) > 0);
        assert(after == sealed(before, st.1.last()).push(op_words(op)[0]));
    } else {
        let w = op_words(op);
        assert(after == before + w);
        assert forall|k: int| 0 <= k < w.len() implies after[n + k] == #[trigger] w[k] by {
        }
        match op {
            Op::FillPath { paint, path } => {
                let pw = paint_words(paint);
                assert forall|j: int| 0 <= j < pw.len() implies after[n + 1 + j] == #[trigger] pw[j] by {
                    assert(w[1 + j] == pw[j]);
                    assert(after[n + (1 + j)] == w[1 + j]);
                }
                lemma_reads_shift(after, n + 1, paint);
            },
            Op::StrokePath { paint, .. } => {
                let pw = paint_words(paint);
                assert forall|j: int| 0 <= j < pw.len() implies after[n + 1 + j] == #[trigger] pw[j] by {
                    assert(w[1 + j] == pw[j]);
                    assert(after[n + (1 + j)] == w[1 + j]);
                }
                lemma_reads_shift(after, n + 1, paint);
            },
            Op::GlyphRun { paint, .. } => {
                let pw = paint_words(paint);
                assert forall|j: int| 0 <= j < pw.len() implies after[n + 3 + j] == #[trigger] pw[j] by {
                    assert(w[3 + j] == pw[j]);
                    assert(after[n + (3 + j)] == w[3 + j]);
                }
                lemma_reads_shift(after, n + 3, paint);
            },
            _ => {},
        }
    }
}

/// How an op changes the number of open brackets: a clip, a layer, a mask or an
/// item opens one, the op that ends it closes it, and `EndMask` closes the mask as
/// it opens the masked content.
pub open spec fn nest(op: Op) -> int {
    match op {
        Op::PushClip { .. } => 1,
        Op::PushLayer { .. } => 1,
        Op::BeginMask => 1,
        Op::BeginItem { .. } => 1,
        Op::PopClip => -1,
        Op::PopLayer => -1,
        Op::PopMask => -1,
        Op::EndItem => -1,
        _ => 0,
    }
}

/// The brackets open after the first `k` ops of `s`.
pub open spec fn depth(s: Seq<Op>, k: int) -> int
    decreases k,
{
    if k <= 0 {
        0
    } else {
        depth(s, k - 1) + nest(s[k - 1])
    }
}

/// Every bracket opened in `s` is ended in it, no op ends a bracket that did not
/// open in it, and an `EndMask` only comes inside an open bracket.
pub open spec fn balanced(s: Seq<Op>) -> bool {
    &&& depth(s, s.len() as int) == 0
    &&& forall|k: int| 0 <= k <= s.len() ==> #[trigger] depth(s, k) >= 0
    &&& forall|k: int| 0 <= k < s.len() && (#[trigger] s[k]) is EndMask ==> depth(s, k) >= 1
}

proof fn lemma_nest(op: Op)
    ensures
        depth_change(op) == nest(op),
        is_closer(op) <==> (nest(op) == -1 || op is EndMask),
{
}

proof fn lemma_level_depth(ops: Seq<Op>, b: Seq<Op>, k: int)
    requires
        ops.len() == b.len() + 2,
        forall|m: int| 0 <= m < b.len() ==> ops[m + 1] == b[m],
        0 <= k <= b.len(),
    ensures
        level(ops, 1, 1 + k) == 1 + depth(b, k),
    decreases k,
{
    if k > 0 {
        lemma_level_depth(ops, b, k - 1);
        lemma_nest(b[k - 1]);
        assert(ops[k] == b[k - 1]);
    }
}

/// An op that opens a bracket, its content balanced and an op that ends a bracket:
/// `close` at the opener finds that last op, and nothing before it, whatever
/// clips, layers, masks and items the content opens and ends.
pub proof fn lemma_close_finds_the_matching_end(ops: Seq<Op>, opener: Op, inner: Seq<Op>, end: Op)
    requires
        opener is PushClip || opener is PushLayer || opener is BeginMask || opener is BeginItem,
        end is PopClip || end is PopLayer || end is PopMask || end is EndItem || end is EndMask,
        balanced(inner),
        ops == seq![opener] + inner + seq![end],
    ensures
        closes_at(ops, 0, ops.len() - 1),
        forall|k: int| 0 < k < ops.len() - 1 ==> !closes_at(ops, 0, k),
{
    let n = ops.len() as int;
    assert forall|m: int| 0 <= m < inner.len() implies ops[m + 1] == inner[m] by {
    }
    lemma_level_depth(ops, inner, inner.len() as int);
    assert(ops[n - 1] == end);
    lemma_nest(end);
    assert forall|k: int| 0 < k < n - 1 implies !closes_at(ops, 0, k) by {
        let m = k - 1;
        lemma_level_depth(ops, inner, m);
        assert(ops[k] == inner[m]);
        lemma_nest(inner[m]);
        if closes_at(ops, 0, k) {
            assert(depth(inner, m) == 0);
            assert(depth(inner, m + 1) >= 0);
            assert(depth(inner, m + 1) == depth(inner, m) + nest(inner[m]));
        }
    }
}

/// The content hash of items and layers is 32-bit FNV-1a over words: it starts
/// from 0x811c9dc5 and takes each word in turn by xor, then multiplication by the
/// prime 0x01000193 modulo 2^32.
pub proof fn lemma_fnv32_is_fnv1a(words: Seq<u32>, x: u32)
    ensures
        fnv32(Seq::empty()) == 0x811c9dc5u32,
        fnv32(words.push(x)) as int == ((fnv32(words) ^ x) as int * 0x01000193) % 0x100000000,
{
    assert(words.push(x).drop_last() =~= words);
}

} // verus!
