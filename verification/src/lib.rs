//! The verified core of a page layout engine: the binary display list, the image
//! and font registries, box blurs, pixel conversion and the text bookkeeping that
//! the renderer, the PDF writer and the document model build on.

pub mod color;
pub mod display_list;
pub mod doc;
pub mod image;
pub mod layout;
pub mod raster;
pub mod style;
pub mod text;
pub mod utf;
pub mod variable;

use vstd::arithmetic::div_mod::lemma_div_denominator;
use vstd::arithmetic::power2::{lemma2_to64, lemma_pow2_adds, pow2};
use vstd::bits::lemma_u64_shr_is_div;
use vstd::prelude::*;

verus! {

/// One step of the 64-bit FNV-1a hash over bytes.
pub open spec fn fnv64_step(h: u64, b: u8) -> u64 {
    (((h ^ (b as u64)) as int * 0x100000001b3) % 0x10000000000000000) as u64
}

/// The 64-bit FNV-1a hash of `bytes`.
pub open spec fn fnv64(bytes: Seq<u8>) -> u64
    decreases bytes.len(),
{
    if bytes.len() == 0 {
        0xcbf29ce484222325
    } else {
        fnv64_step(fnv64(bytes.drop_last()), bytes.last())
    }
}

/// The lowercase hex digit of `d`.
pub open spec fn hex_digit(d: int) -> char {
    if d < 10 {
        (('0' as int) + d) as char
    } else {
        (('a' as int) + d - 10) as char
    }
}

/// The `n` lowest hex digits of `v`, most significant first.
pub open spec fn hex(v: nat, n: nat) -> Seq<char>
    decreases n,
{
    if n == 0 {
        Seq::empty()
    } else {
        hex(v / 16, (n - 1) as nat).push(hex_digit((v % 16) as int))
    }
}

fn hex_str(d: u64) -> (s: &'static str)
    requires
        d < 16,
    ensures
        s@ == seq![hex_digit(d as int)],
{
    match d {
        0 => {
            proof {
                reveal_strlit("0");
            }
            "0"
        },
        1 => {
            proof {
                reveal_strlit("1");
            }
            "1"
        },
        2 => {
            proof {
                reveal_strlit("2");
            }
            "2"
        },
        3 => {
            proof {
                reveal_strlit("3");
            }
            "3"
        },
        4 => {
            proof {
                reveal_strlit("4");
            }
            "4"
        },
        5 => {
            proof {
                reveal_strlit("5");
            }
            "5"
        },
        6 => {
            proof {
                reveal_strlit("6");
            }
            "6"
        },
        7 => {
            proof {
                reveal_strlit("7");
            }
            "7"
        },
        8 => {
            proof {
                reveal_strlit("8");
            }
            "8"
        },
        9 => {
            proof {
                reveal_strlit("9");
            }
            "9"
        },
        10 => {
            proof {
                reveal_strlit("a");
            }
            "a"
        },
        11 => {
            proof {
                reveal_strlit("b");
            }
            "b"
        },
        12 => {
            proof {
                reveal_strlit("c");
            }
            "c"
        },
        13 => {
            proof {
                reveal_strlit("d");
            }
            "d"
        },
        14 => {
            proof {
                reveal_strlit("e");
            }
            "e"
        },
        _ => {
            proof {
                reveal_strlit("f");
            }
            "f"
        },
    }
}

/// The hash that names a file's bytes: 64-bit FNV-1a as 16 lowercase hex digits.
pub fn content_hash(bytes: &[u8]) -> (s: String)
    ensures
        s@ == hex(fnv64(bytes@) as nat, 16),
{
    let mut h: u64 = 0xcbf29ce484222325;
    let mut i: usize = 0;
    while i < bytes.len()
        invariant
            i <= bytes@.len(),
            h == fnv64(bytes@.take(i as int)),
        decreases bytes@.len() - i,
    {
        assert(bytes@.take(i + 1).drop_last() =~= bytes@.take(i as int));
        h = (h ^ bytes[i] as u64).wrapping_mul(0x100000001b3);
        i = i + 1;
    }
    assert(bytes@.take(bytes@.len() as int) =~= bytes@);
    let mut s = String::new();
    let mut k: u64 = 16;
    assert(s@ == Seq::<char>::empty());
    proof {
        lemma_pow16(16);
    }
    assert(hex(h as nat / pow16(16), 0) == Seq::<char>::empty());
    while k > 0
        invariant
            k <= 16,
            s@ == hex(h as nat / pow16(k as nat), (16 - k) as nat),
        decreases k,
    {
        k = k - 1;
        let d = (h >> (4 * k)) & 15;
        proof {
            lemma_nibble(h, k);
        }
        let ghost before = s@;
        s.append(hex_str(d));
        assert(s@ == before.push(hex_digit(d as int)));
        proof {
            lemma_pow16(k as nat);
            lemma_pow16((k + 1) as nat);
        }
        let ghost v = h as nat / pow16(k as nat);
        assert(hex(v, (16 - k) as nat) == hex(v / 16, (16 - k - 1) as nat).push(
            hex_digit((v % 16) as int),
        ));
        assert(s@ =~= hex(h as nat / pow16(k as nat), (16 - k) as nat));
    }
    assert(pow16(0) == 1);
    assert(h as nat / 1 == h as nat);
    s
}

/// The file hash is 64-bit FNV-1a: it starts from the offset basis
/// 0xcbf29ce484222325 and takes each byte in turn by xor, then multiplication by
/// the prime 0x100000001b3 modulo 2^64.
pub proof fn lemma_fnv64_is_fnv1a(bytes: Seq<u8>, b: u8)
    ensures
        fnv64(Seq::empty()) == 0xcbf29ce484222325u64,
        fnv64(bytes.push(b)) as int == ((fnv64(bytes) ^ (b as u64)) as int * 0x100000001b3)
            % 0x10000000000000000,
{
    assert(bytes.push(b).drop_last() =~= bytes);
}

/// A copy of the bytes `b`.
pub(crate) fn copy_bytes(b: &[u8]) -> (r: Vec<u8>)
    ensures
        r@ == b@,
{
    let mut out: Vec<u8> = Vec::new();
    let mut i: usize = 0;
    while i < b.len()
        invariant
            i <= b@.len(),
            out@ == b@.take(i as int),
        decreases b@.len() - i,
    {
        out.push(b[i]);
        i = i + 1;
        assert(out@ =~= b@.take(i as int));
    }
    assert(b@.take(i as int) =~= b@);
    out
}

/// 16 to the power `k`.
pub open spec fn pow16(k: nat) -> nat
    decreases k,
{
    if k == 0 {
        1
    } else {
        16 * pow16((k - 1) as nat)
    }
}

proof fn lemma_pow16(k: nat)
    ensures
        pow16(k) == pow2(4 * k),
        pow16(k) > 0,
    decreases k,
{
    if k > 0 {
        lemma_pow16((k - 1) as nat);
        lemma_pow2_adds(4 * (k - 1) as nat, 4);
        lemma2_to64();
        assert(4 * (k - 1) as nat + 4 == 4 * k);
    } else {
        lemma2_to64();
    }
}

proof fn lemma_nibble(h: u64, k: u64)
    requires
        k < 16,
    ensures
        ((h >> (4 * k)) & 15) as nat == (h as nat / pow16(k as nat)) % 16,
        (h as nat / pow16((k + 1) as nat)) == (h as nat / pow16(k as nat)) / 16,
{
    lemma_pow16(k as nat);
    lemma_u64_shr_is_div(h, (4 * k) as u64);
    let x = h >> (4 * k);
    assert(x & 15 == x % 16) by (bit_vector);
    lemma_div_denominator(h as int, pow16(k as nat) as int, 16);
    assert(pow16((k + 1) as nat) == pow16(k as nat) * 16);
}

} // verus!
