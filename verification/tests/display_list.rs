use engine::display_list::{close, encode, Op, Paint, Shadow, Stop};

const MOVE: f32 = 0.0;
const LINE: f32 = 1.0;
const CLOSE: f32 = 5.0;

fn bits(v: &[f32]) -> Vec<u32> {
    v.iter().map(|f| f.to_bits()).collect()
}

fn rect(x: f32, y: f32, w: f32, h: f32) -> Vec<u32> {
    bits(&[MOVE, x, y, LINE, x + w, y, LINE, x + w, y + h, LINE, x, y + h, CLOSE])
}

fn color(c: [f32; 4]) -> [u32; 4] {
    c.map(f32::to_bits)
}

fn fnv(words: &[u32]) -> u32 {
    words.iter().fold(0x811c9dc5u32, |h, w| (h ^ w).wrapping_mul(0x01000193))
}

#[test]
fn item_hash_follows_item_content() {
    let hash = |c: [f32; 4]| {
        encode(&[
            Op::BeginItem { item: 0 },
            Op::FillPath { paint: Paint::Solid { color: color(c) }, path: rect(0.0, 0.0, 1.0, 1.0) },
            Op::EndItem,
        ])[2]
    };
    assert_eq!(hash([1.0; 4]), hash([1.0; 4]));
    assert_ne!(hash([1.0; 4]), hash([0.5; 4]));
}

#[test]
fn layer_hash_follows_everything_inside_the_layer() {
    let hash = |opacity: f32| {
        encode(&[
            Op::PushLayer { opacity: 1.0f32.to_bits(), blend: 0, blur: 0, shadows: vec![] },
            Op::PushLayer { opacity: opacity.to_bits(), blend: 0, blur: 0, shadows: vec![] },
            Op::PopLayer,
            Op::PopLayer,
        ])[1]
    };
    assert_eq!(hash(0.5), hash(0.5));
    assert_ne!(hash(0.5), hash(0.25));
}

#[test]
fn close_finds_the_matching_end() {
    let ops = [
        Op::BeginMask,
        Op::BeginItem { item: 0 },
        Op::EndItem,
        Op::EndMask,
        Op::BeginItem { item: 0 },
        Op::EndItem,
        Op::PopMask,
    ];
    assert_eq!([0, 3, 1].map(|at| close(&ops, at)), [3, 6, 2]);
}

#[test]
fn close_without_an_end_is_the_length() {
    let ops = [Op::PushClip { path: vec![], invert: false }, Op::BeginMask, Op::EndMask, Op::PopMask];
    assert_eq!(close(&ops, 0), 4);
    assert_eq!(close(&ops, 1), 2);
}

#[test]
fn the_words_of_each_op_follow_its_code() {
    let words = encode(&[
        Op::Page { width: 10, height: 20, bleed: 3 },
        Op::Image { image: 2, rect: [1, 2, 3, 4] },
        Op::PushClip { path: vec![9, 8], invert: true },
        Op::PopClip,
        Op::BeginMask,
        Op::EndMask,
        Op::PopMask,
    ]);
    assert_eq!(words, vec![0, 10, 20, 3, 5, 2, 1, 2, 3, 4, 6, 1, 2, 9, 8, 7, 11, 12, 13]);
}

#[test]
fn glyphs_pack_two_to_a_word() {
    let words = encode(&[Op::GlyphRun {
        font: 1,
        size: 7,
        paint: Paint::Solid { color: [1, 2, 3, 4] },
        glyphs: vec![3, 65535, 42],
        positions: vec![5, 6],
    }]);
    assert_eq!(words, vec![4, 1, 7, 0, 1, 2, 3, 4, 3, 3 | 65535 << 16, 42, 5, 6]);
}

#[test]
fn gradients_write_their_transform_and_stops() {
    let words = encode(&[Op::StrokePath {
        paint: Paint::Radial {
            transform: [1, 2, 3, 4, 5, 6],
            stops: vec![Stop { at: 7, color: [8, 9, 10, 11] }],
        },
        width: 12,
        cap: 1,
        join: 2,
        path: vec![13],
    }]);
    assert_eq!(words, vec![8, 2, 1, 2, 3, 4, 5, 6, 1, 7, 8, 9, 10, 11, 12, 1, 2, 1, 13]);
}

#[test]
fn an_item_hash_is_the_fnv_hash_of_its_words() {
    let words = encode(&[
        Op::PushLayer {
            opacity: 5,
            blend: 1,
            blur: 2,
            shadows: vec![Shadow { offset: [3, 4], blur: 6, color: [7, 8, 9, 10] }],
        },
        Op::BeginItem { item: 7 },
        Op::FillPath { paint: Paint::Linear { transform: [1; 6], stops: vec![] }, path: vec![1, 2] },
        Op::EndItem,
        Op::PopLayer,
    ]);
    // layer: 9, hash, opacity, blend, blur, 1 shadow: offset, blur, color
    assert_eq!(&words[2..12], &[5, 1, 2, 1, 3, 4, 6, 7, 8, 9][..]);
    assert_eq!(&words[13..15], &[1, 7]);
    let item_end = words.len() - 2;
    assert_eq!(words[item_end], 2);
    assert_eq!(words[15], fnv(&words[16..item_end]));
    assert_eq!(words[words.len() - 1], 10);
    assert_eq!(words[1], fnv(&words[2..words.len() - 1]));
}
