//! Which files decode, and to what: stated over the bytes of a file and the values that
//! they stand for.

use vstd::prelude::*;
use vstd::arithmetic::power2::*;

use crate::binary32;
use crate::fidelity;
use crate::rounding;
use crate::wav;

verus! {

/// The number that four bytes give, the lowest first.
pub open spec fn number(b: Seq<u8>, i: int) -> int {
    b[i] + 0x100 * b[i + 1] + 0x1_0000 * b[i + 2] + 0x100_0000 * b[i + 3]
}

/// Whether the chunk at place `i` fits in the file, and the next place is where a chunk
/// behind it begins, at an even distance.
pub open spec fn fits(b: Seq<u8>, at: Seq<int>, i: int) -> bool {
    let size = number(b, at[i] + 4);
    &&& at[i] + 8 + size <= b.len()
    &&& at[i + 1] == at[i] + 8 + size + size % 2
}

/// Whether chunks begin at the given places: each fits in the file and is followed by the
/// next one at an even distance, and behind the last one no further chunk can begin.
pub open spec fn chunks_at(b: Seq<u8>, at: Seq<int>) -> bool {
    &&& at.len() > 0
    &&& at[0] == 12
    &&& forall|i: int| 0 <= i < at.len() - 1 ==> #[trigger] fits(b, at, i)
    &&& at.last() + 8 > b.len()
}

/// Whether the chunk at `p` has the four bytes of `tag` before its size.
pub open spec fn tag_at(b: Seq<u8>, p: int, tag: Seq<u8>) -> bool {
    b[p] == tag[0] && b[p + 1] == tag[1] && b[p + 2] == tag[2] && b[p + 3] == tag[3]
}

/// The signed number of `width` bytes at `i`, the lowest first.
pub open spec fn signed_number(b: Seq<u8>, i: int, width: int) -> int {
    if width == 1 {
        b[i] - 128
    } else if width == 2 {
        let v = b[i] + 0x100 * b[i + 1];
        if v < 0x8000 {
            v
        } else {
            v - 0x1_0000
        }
    } else if width == 3 {
        let v = b[i] + 0x100 * b[i + 1] + 0x1_0000 * b[i + 2];
        if v < 0x80_0000 {
            v
        } else {
            v - 0x100_0000
        }
    } else {
        let v = number(b, i);
        if v < 0x8000_0000 {
            v
        } else {
            v - 0x1_0000_0000
        }
    }
}

/// Whether `x` is what the bytes at `i` stand for: an integer as a fraction of full
/// scale, which is exact up to 24 bits and with 32 the binary32 value nearest to it, off by
/// a 2^23-th of itself at most; or a binary32 number, brought to full scale where it lies
/// beyond.
pub open spec fn stands_for(b: Seq<u8>, i: int, encoding: int, bits: int, x: u32) -> bool {
    let one = binary32::one_units() as int;
    let v = signed_number(b, i, bits / 8);
    let value = binary32::signed_units(x);
    &&& binary32::magnitude(x) <= 0x3f80_0000
    &&& if encoding == 3 {
        let stored = number(b, i) as u32;
        if binary32::magnitude(stored) <= 0x3f80_0000 {
            x == stored
        } else if stored < 0x8000_0000 {
            x == 0x3f80_0000
        } else {
            x == 0xbf80_0000
        }
    } else if bits == 8 {
        0x80 * value == v * one
    } else if bits == 16 {
        0x8000 * value == v * one
    } else if bits == 24 {
        0x80_0000 * value == v * one
    } else {
        let wide = 0x8000_0000 * value;
        let size = if v < 0 {
            -v
        } else {
            v
        };
        &&& wide == binary32::signed_units(binary32::integer(v))
        &&& -(size * one) <= 0x80_0000 * (wide - v * one) <= size * one
    }
}

/// Division by a power of two is exact.
proof fn lemma_divided_by_power(x: u32, scale: u32, s: nat)
    requires
        binary32::magnitude(x) == 0 || binary32::ONE <= binary32::magnitude(x) < rounding::INFINITE,
        !binary32::negative(scale),
        binary32::finite(scale),
        s <= 31,
        binary32::absolute_units(scale) == pow2(s) * binary32::one_units(),
        binary32::absolute_units(x) <= binary32::absolute_units(scale),
    ensures
        ({
            let y = binary32::quotient_of(x, scale);
            &&& binary32::magnitude(y) <= binary32::ONE
            &&& binary32::absolute_units(y) * pow2(s) == binary32::absolute_units(x)
            &&& pow2(s) * binary32::signed_units(y) == binary32::signed_units(x)
        }),
{
    let one = binary32::one_units();
    let d = binary32::absolute_units(scale);
    let u = binary32::absolute_units(x);
    let y = binary32::quotient_of(x, scale);
    let p = pow2(s);
    fidelity::lemma_one();
    lemma_pow2_pos(s);
    lemma2_to64();
    assert(d > 0) by (nonlinear_arith)
        requires
            d == p * one,
            p > 0,
            one > 0,
    ;
    assert(binary32::magnitude(scale) != 0) by {
        if binary32::magnitude(scale) == 0 {
            assert(rounding::units(0) == 0);
        }
    }
    assert(binary32::magnitude(y) == rounding::nearest(u * one, d));
    assert(u * one <= one * d) by (nonlinear_arith)
        requires
            u <= d,
    ;
    rounding::lemma_nearest_is_monotone(u * one, one * d, d);
    rounding::lemma_nearest_on_grid(binary32::ONE as nat, d);
    let w = binary32::absolute_units(y);
    let m = binary32::magnitude(x) as nat;
    if m == 0 {
        assert(0 * one == 0 && 0 * d == 0 && 0 * p == 0) by (nonlinear_arith);
        rounding::lemma_nearest_on_grid(0, d);
        assert(w == 0);
    } else {
        let exponent = m / 0x80_0000;
        let sig = 0x80_0000 + m % 0x80_0000;
        let e = (exponent - 1) as nat;
        assert(exponent >= 127);
        let low = pow2((e - s) as nat);
        lemma_pow2_adds((e - s) as nat, s);
        assert(u == sig * (low * p));
        assert(u * one == (sig * low) * d) by (nonlinear_arith)
            requires
                u == sig * (low * p),
                d == p * one,
        ;
        rounding::lemma_nearest_is_exact(sig, (e - s) as nat, d);
        assert(w * p == u) by (nonlinear_arith)
            requires
                w == sig * low,
                u == sig * (low * p),
        ;
    }
    assert(p * w == w * p && p * (-(w as int)) == -(w * p)) by (nonlinear_arith);
    if u == 0 {
        assert(w == 0) by (nonlinear_arith)
            requires
                w * p == 0,
                p > 0,
        ;
    }
}

/// The powers of two by which samples are divided.
proof fn lemma_scales()
    ensures
        pow2(7) == 0x80,
        pow2(15) == 0x8000,
        pow2(23) == 0x80_0000,
        pow2(31) == 0x8000_0000,
        binary32::absolute_units(wav::SCALE_8) == pow2(7) * binary32::one_units(),
        binary32::absolute_units(wav::SCALE_16) == pow2(15) * binary32::one_units(),
        binary32::absolute_units(wav::SCALE_24) == pow2(23) * binary32::one_units(),
        binary32::absolute_units(wav::SCALE_32) == pow2(31) * binary32::one_units(),
{
    lemma2_to64();
    lemma_pow2_adds(7, 149);
    lemma_pow2_adds(15, 149);
    lemma_pow2_adds(23, 149);
    lemma_pow2_adds(31, 149);
    lemma_pow2_adds(23, 133);
    lemma_pow2_adds(23, 141);
    lemma_pow2_adds(23, 157);
}

/// An integer of up to 24 bits is a sample.
proof fn lemma_integer(v: int)
    requires
        -0x100_0000 < v < 0x100_0000,
    ensures
        ({
            let x = binary32::integer(v);
            &&& binary32::finite(x)
            &&& binary32::signed_units(x) == v * binary32::one_units()
            &&& binary32::absolute_units(x) == (if v < 0 {
                -v
            } else {
                v
            }) * binary32::one_units()
            &&& binary32::magnitude(x) == 0 || binary32::magnitude(x) >= binary32::ONE
        }),
{
    let one = binary32::one_units();
    let a: nat = if v < 0 {
        (-v) as nat
    } else {
        v as nat
    };
    fidelity::lemma_one();
    fidelity::lemma_small_integer(a);
    let x = binary32::integer(v);
    assert(v < 0 ==> (-v) * one == a * one);
    assert(v * one == if v < 0 {
        -(a * one)
    } else {
        (a * one) as int
    }) by (nonlinear_arith)
        requires
            a == if v < 0 {
                -v
            } else {
                v
            },
    ;
    assert(binary32::magnitude(x) == rounding::nearest(a * one, 1));
    if a == 0 {
        assert(0 * one == 0) by (nonlinear_arith);
        rounding::lemma_nearest_on_grid(0, 1);
    } else {
        assert(one * 1 <= a * one) by (nonlinear_arith)
            requires
                a >= 1,
        ;
        rounding::lemma_nearest_is_monotone(one * 1, a * one, 1);
        rounding::lemma_nearest_on_grid(binary32::ONE as nat, 1);
    }
}

/// An integer of 32 bits is off by a 2^23-th of itself at most.
proof fn lemma_wide_integer(v: int)
    requires
        -0x8000_0000 <= v < 0x8000_0000,
    ensures
        ({
            let x = binary32::integer(v);
            let one = binary32::one_units() as int;
            let size = if v < 0 {
                -v
            } else {
                v
            };
            let wide = binary32::signed_units(x);
            &&& binary32::finite(x)
            &&& binary32::absolute_units(x) <= 0x8000_0000 * one
            &&& -(size * one) <= 0x80_0000 * (wide - v * one) <= size * one
            &&& binary32::magnitude(x) == 0 || binary32::magnitude(x) >= binary32::ONE
        }),
{
    let one = binary32::one_units();
    let a: nat = if v < 0 {
        (-v) as nat
    } else {
        v as nat
    };
    let x = binary32::integer(v);
    let n = a * one;
    fidelity::lemma_one();
    lemma_scales();
    assert(v < 0 ==> (-v) * one == n);
    assert(v * one == if v < 0 {
        -(n as int)
    } else {
        n as int
    }) by (nonlinear_arith)
        requires
            n == a * one,
            a == if v < 0 {
                -v
            } else {
                v
            },
    ;
    let top = binary32::absolute_units(wav::SCALE_32);
    assert(n <= top * 1) by (nonlinear_arith)
        requires
            n == a * one,
            a <= 0x8000_0000,
            top == 0x8000_0000 * one,
    ;
    assert(binary32::magnitude(x) == rounding::nearest(n, 1));
    rounding::lemma_nearest_is_monotone(n, top * 1, 1);
    rounding::lemma_nearest_on_grid(wav::SCALE_32 as nat, 1);
    rounding::lemma_units_are_monotone(binary32::magnitude(x) as nat, wav::SCALE_32 as nat);
    let u = binary32::absolute_units(x);
    if a == 0 {
        assert(n == 0) by (nonlinear_arith)
            requires
                n == a * one,
                a == 0,
        ;
        rounding::lemma_nearest_on_grid(0, 1);
    } else {
        lemma2_to64();
        lemma_pow2_strictly_increases(64, 149);
        lemma2_to64_rest();
        assert(one * 1 <= n) by (nonlinear_arith)
            requires
                n == a * one,
                a >= 1,
        ;
        rounding::lemma_nearest_is_monotone(one * 1, n, 1);
        rounding::lemma_nearest_on_grid(binary32::ONE as nat, 1);
        rounding::lemma_nearest_is_close(n, 1);
        assert(u * 1 == u);
    }
}

/// What a decoder makes of stored bytes is what they stand for.
proof fn lemma_stored_stands_for(b: Seq<u8>, i: int, encoding: u16, bits: u16)
    requires
        0 <= i,
        i + bits / 8 <= b.len(),
        wav::supported(encoding as nat, bits as nat),
        encoding == 3 ==> binary32::magnitude(number(b, i) as u32) < 0x7f80_0000,
    ensures
        binary32::finite(wav::stored_sample(b, i, encoding, bits)),
        stands_for(
            b,
            i,
            encoding as int,
            bits as int,
            binary32::limited(wav::stored_sample(b, i, encoding, bits)),
        ),
{
    let x = wav::stored_sample(b, i, encoding, bits);
    let v = signed_number(b, i, bits as int / 8);
    let one = binary32::one_units();
    lemma_scales();
    fidelity::lemma_one();
    if encoding == 3 {
        assert(wav::le32(b, i) == number(b, i));
        binary32::law_limited_samples_are_within_full_scale(x);
    } else if bits == 8 {
        lemma_integer(b[i] as int);
        lemma_integer(v);
        let exact = b[i] * one - 0x80 * one;
        assert(exact == v * one) by (nonlinear_arith)
            requires
                exact == b[i] * one - 0x80 * one,
                v == b[i] - 128,
        ;
        rounding::lemma_nearest_on_grid(0, 1);
        let whole = binary32::integer(v);
        assert(binary32::signed_units(0xc300_0000) == -(0x80 * one));
        assert(binary32::difference_of(binary32::integer(b[i] as int), wav::SCALE_8) == whole) by {
            assert(exact < 0 <==> v < 0) by (nonlinear_arith)
                requires
                    exact == v * one,
                    one > 0,
            ;
            assert(v < 0 ==> (-v) * one == -exact) by (nonlinear_arith)
                requires
                    exact == v * one,
            ;
        }
        let size = if v < 0 {
            -v
        } else {
            v
        };
        assert(size * one <= 0x80 * one) by (nonlinear_arith)
            requires
                size <= 0x80,
        ;
        lemma_divided_by_power(whole, wav::SCALE_8, 7);
        binary32::law_limited_samples_are_within_full_scale(x);
    } else if bits == 16 || bits == 24 {
        assert(v == if bits == 16 {
            wav::twos_complement(wav::le16(b, i), 0x8000)
        } else {
            wav::twos_complement(wav::le16(b, i) + 0x1_0000 * b[i + 2] as nat, 0x80_0000)
        });
        lemma_integer(v);
        let size = if v < 0 {
            -v
        } else {
            v
        };
        let top: int = if bits == 16 {
            0x8000
        } else {
            0x80_0000
        };
        assert(size * one <= top * one) by (nonlinear_arith)
            requires
                size <= top,
        ;
        if bits == 16 {
            lemma_divided_by_power(binary32::integer(v), wav::SCALE_16, 15);
        } else {
            lemma_divided_by_power(binary32::integer(v), wav::SCALE_24, 23);
        }
        binary32::law_limited_samples_are_within_full_scale(x);
    } else {
        assert(wav::le32(b, i) == number(b, i));
        assert(v == wav::twos_complement(wav::le32(b, i), 0x8000_0000));
        lemma_wide_integer(v);
        lemma_divided_by_power(binary32::integer(v), wav::SCALE_32, 31);
        binary32::law_limited_samples_are_within_full_scale(x);
    }
}

/// Walking the chunks finds the last one of each kind.
proof fn lemma_walk(b: Seq<u8>, at: Seq<int>, i: int, found: wav::Found, f: int, d: int)
    requires
        b.len() <= usize::MAX,
        chunks_at(b, at),
        0 <= i < at.len(),
        -1 <= f < at.len() - 1,
        -1 <= d < at.len() - 1,
        forall|j: int| i <= j < at.len() - 1 && j > f ==> !tag_at(b, #[trigger] at[j], wav::format_tag()),
        f >= i ==> tag_at(b, at[f], wav::format_tag()),
        forall|j: int| i <= j < at.len() - 1 && j > d ==> !tag_at(b, #[trigger] at[j], wav::data_tag()),
        d >= i ==> tag_at(b, at[d], wav::data_tag()),
        f < i ==> found.format == if f < 0 {
            None
        } else {
            Some((at[f] + 8, at[f] + 8 + number(b, at[f] + 4)))
        },
        d < i ==> found.data == if d < 0 {
            None
        } else {
            Some((at[d] + 8, at[d] + 8 + number(b, at[d] + 4)))
        },
        12 <= at[i],
    ensures
        wav::walked(b, at[i], found) == Ok::<wav::Found, Seq<char>>(
            wav::Found {
                format: if f < 0 {
                    None
                } else {
                    Some((at[f] + 8, at[f] + 8 + number(b, at[f] + 4)))
                },
                data: if d < 0 {
                    None
                } else {
                    Some((at[d] + 8, at[d] + 8 + number(b, at[d] + 4)))
                },
            },
        ),
    decreases at.len() - i,
{
    if i == at.len() - 1 {
        assert(at[i] == at.last());
    } else {
        let p = at[i];
        let size = number(b, p + 4);
        assert(wav::le32(b, p + 4) == size);
        assert(fits(b, at, i));
        lemma_tagged(b, p, wav::format_tag());
        lemma_tagged(b, p, wav::data_tag());
        let now = if tag_at(b, p, wav::format_tag()) {
            wav::Found { format: Some((p + 8, p + 8 + size)), data: found.data }
        } else if tag_at(b, p, wav::data_tag()) {
            wav::Found { format: found.format, data: Some((p + 8, p + 8 + size)) }
        } else {
            found
        };
        assert(wav::walked(b, p, found) == wav::walked(b, at[i + 1], now));
        assert(wav::format_tag()[0] != wav::data_tag()[0]);
        lemma_walk(b, at, i + 1, now, f, d);
    }
}

/// Four bytes are a tag where each of them is.
proof fn lemma_tagged(b: Seq<u8>, p: int, tag: Seq<u8>)
    requires
        0 <= p,
        p + 4 <= b.len(),
        tag.len() == 4,
    ensures
        wav::tagged(b, p, tag) == tag_at(b, p, tag),
{
    let part = b.subrange(p, p + 4);
    if tag_at(b, p, tag) {
        assert(part =~= tag);
    } else if part == tag {
        assert(part[0] == b[p] && part[1] == b[p + 1] && part[2] == b[p + 2] && part[3] == b[p + 3]);
    }
}

/// The encoding that the format chunk with `size` bytes at `p` declares: an extensible
/// one, 0xfffe, names it further behind.
pub open spec fn encoding_at(b: Seq<u8>, p: int, size: int) -> int {
    if b[p] == 0xfe && b[p + 1] == 0xff && size >= 40 {
        b[p + 24] + 0x100 * b[p + 25]
    } else {
        b[p] + 0x100 * b[p + 1]
    }
}

/// Whether `size` bytes of format at `p` declare a mono recording that can be read: of 8
/// to 96 kHz, in integers of 8, 16, 24 or 32 bits or in binary32, and `len` bytes hold 2
/// to 30 seconds of it in whole samples.
pub open spec fn can_be_read(b: Seq<u8>, p: int, size: int, len: int) -> bool {
    let encoding = encoding_at(b, p, size);
    let rate = number(b, p + 4);
    let block = b[p + 12] + 0x100 * b[p + 13];
    let bits = b[p + 14] + 0x100 * b[p + 15];
    &&& size >= 16
    &&& b[p + 2] == 1 && b[p + 3] == 0
    &&& 8_000 <= rate <= 96_000
    &&& (encoding == 1 && (bits == 8 || bits == 16 || bits == 24 || bits == 32)) || (encoding == 3
        && bits == 32)
    &&& 8 * block == bits
    &&& len % block == 0
    &&& 2 * rate * block <= len <= 30 * rate * block
}

/// Why a recording that is declared by `size` bytes of format at `p` cannot be read: what
/// is wrong first of the chunk itself, its channels, its rate, the size of its samples,
/// their kind, and its duration.
pub open spec fn why_not(b: Seq<u8>, p: int, size: int, len: int) -> Seq<char> {
    let encoding = encoding_at(b, p, size);
    let rate = number(b, p + 4);
    let block = b[p + 12] + 0x100 * b[p + 13];
    let bits = b[p + 14] + 0x100 * b[p + 15];
    if size < 16 {
        "Selected WAV has an invalid format chunk"@
    } else if b[p + 2] != 1 || b[p + 3] != 0 {
        "Voice WAV must be mono"@
    } else if !(8_000 <= rate <= 96_000) {
        "Voice WAV sample rate must be between 8 and 96 kHz"@
    } else if block == 0 || !(bits <= 8 * block < bits + 8) || len % block != 0 {
        "Voice WAV has invalid sample alignment"@
    } else if !(encoding == 1 && (bits == 8 || bits == 16 || bits == 24 || bits == 32)) && !(encoding
        == 3 && bits == 32) {
        "Voice WAV must contain PCM or 32-bit float audio"@
    } else {
        "Voice WAV must be between 2 and 30 seconds long"@
    }
}

/// Whether a file begins as a WAV file does.
pub open spec fn begins_as_wave(b: Seq<u8>) -> bool {
    &&& b.len() >= 12
    &&& b[0] == 0x52 && b[1] == 0x49 && b[2] == 0x46 && b[3] == 0x46
    &&& b[8] == 0x57 && b[9] == 0x41 && b[10] == 0x56 && b[11] == 0x45
}

/// Whether `f` is the last chunk with the tag `fmt `.
pub open spec fn last_format(b: Seq<u8>, at: Seq<int>, f: int) -> bool {
    &&& 0 <= f < at.len() - 1
    &&& tag_at(b, at[f], seq![0x66u8, 0x6du8, 0x74u8, 0x20u8])
    &&& forall|j: int|
        f < j < at.len() - 1 ==> !tag_at(
            b,
            #[trigger] at[j],
            seq![0x66u8, 0x6du8, 0x74u8, 0x20u8],
        )
}

/// Whether `d` is the last chunk with the tag `data`.
pub open spec fn last_data(b: Seq<u8>, at: Seq<int>, d: int) -> bool {
    &&& 0 <= d < at.len() - 1
    &&& tag_at(b, at[d], seq![0x64u8, 0x61u8, 0x74u8, 0x61u8])
    &&& forall|j: int|
        d < j < at.len() - 1 ==> !tag_at(
            b,
            #[trigger] at[j],
            seq![0x64u8, 0x61u8, 0x74u8, 0x61u8],
        )
}

/// The places of chunks go up.
proof fn lemma_places(b: Seq<u8>, at: Seq<int>, i: int)
    requires
        chunks_at(b, at),
        0 <= i < at.len(),
    ensures
        at[i] >= 12,
    decreases i,
{
    if i > 0 {
        lemma_places(b, at, i - 1);
        assert(fits(b, at, i - 1));
    }
}

/// The layout of a file is what its last format chunk declares for its last data chunk.
proof fn lemma_layout(b: Seq<u8>, at: Seq<int>, f: int, d: int)
    requires
        b.len() <= usize::MAX,
        begins_as_wave(b),
        chunks_at(b, at),
        last_format(b, at, f),
        last_data(b, at, d),
    ensures
        ({
            let p = at[f] + 8;
            let q = at[d] + 8;
            let size = number(b, at[f] + 4);
            let len = number(b, at[d] + 4);
            &&& wav::layout_of(b) == wav::declared_layout(b, (p, p + size), (q, q + len))
            &&& 20 <= p && p + size <= b.len()
            &&& 20 <= q && q + len <= b.len()
        }),
{
    lemma_tagged(b, 0, wav::riff_tag());
    lemma_tagged(b, 8, wav::wave_tag());
    lemma_places(b, at, f);
    lemma_places(b, at, d);
    assert(fits(b, at, f) && fits(b, at, d));
    lemma_walk(b, at, 0, wav::Found { format: None, data: None }, f, d);
}

/// A declaration is accepted exactly where the recording can be read.
proof fn lemma_declared(b: Seq<u8>, p: int, size: int, q: int, len: int)
    requires
        b.len() <= usize::MAX,
        20 <= p,
        0 <= size,
        p + size <= b.len(),
        20 <= q,
        0 <= len,
        q + len <= b.len(),
    ensures
        match wav::declared_layout(b, (p, p + size), (q, q + len)) {
            Ok(layout) => {
                let block = b[p + 12] + 0x100 * b[p + 13];
                &&& can_be_read(b, p, size, len)
                &&& layout.sample_rate == number(b, p + 4)
                &&& layout.encoding == encoding_at(b, p, size)
                &&& layout.bits == b[p + 14] + 0x100 * b[p + 15]
                &&& layout.start == q
                &&& wav::sample_bytes(layout.bits as nat) == block
                &&& wav::frames_of(layout) * block == len
                &&& wav::supported(layout.encoding as nat, layout.bits as nat)
            },
            Err(m) => !can_be_read(b, p, size, len) && m == why_not(b, p, size, len),
        },
{
    if size >= 16 {
        let block = b[p + 12] + 0x100 * b[p + 13];
        let rate = number(b, p + 4);
        assert(wav::le16(b, p) == b[p] + 0x100 * b[p + 1]);
        assert(wav::le16(b, p + 12) == block);
        assert(wav::le32(b, p + 4) == rate);
        assert(wav::declared_encoding(b, (p, p + size)) == encoding_at(b, p, size));
        if block > 0 && len % block == 0 {
            let frames = len / block;
            assert(frames * block == len) by (nonlinear_arith)
                requires
                    frames == len / block,
                    len % block == 0,
                    block > 0,
            ;
            assert(frames < 2 * rate <==> len < 2 * rate * block) by (nonlinear_arith)
                requires
                    frames * block == len,
                    block > 0,
            {
                if frames < 2 * rate {
                    assert(frames * block < (2 * rate) * block);
                } else {
                    assert(frames * block >= (2 * rate) * block);
                }
            }
            assert(frames > 30 * rate <==> len > 30 * rate * block) by (nonlinear_arith)
                requires
                    frames * block == len,
                    block > 0,
            {
                if frames > 30 * rate {
                    assert(frames * block > (30 * rate) * block);
                } else {
                    assert(frames * block <= (30 * rate) * block);
                }
            }
        }
    }
}

/// Whether `samples` are what the data of `len` bytes at `q` stand for.
pub open spec fn samples_stand_for(
    b: Seq<u8>,
    q: int,
    len: int,
    encoding: int,
    bits: int,
    samples: Seq<u32>,
) -> bool {
    &&& samples.len() * (bits / 8) == len
    &&& forall|k: int|
        0 <= k < samples.len() ==> stands_for(
            b,
            q + k * (bits / 8),
            encoding,
            bits,
            #[trigger] samples[k],
        )
}

/// Whether all binary32 samples in `len` bytes at `q` are finite.
pub open spec fn all_finite(b: Seq<u8>, q: int, len: int) -> bool {
    forall|k: int|
        0 <= k && 4 * k + 4 <= len ==> binary32::magnitude(#[trigger] number(b, q + 4 * k) as u32)
            < 0x7f80_0000
}

/// Whether a sample reaches 0.001 and the root mean square is not below 0.0001.
pub open spec fn loud_enough(samples: Seq<u32>) -> bool {
    &&& exists|i: int|
        0 <= i < samples.len() && binary32::magnitude(#[trigger] samples[i]) >= 0x3a83_126f
    &&& !binary32::less(wav::root_mean_square(samples), 0x38d1_b717)
}

/// The root mean square of samples is the root of the mean of their squares, which are
/// added up in the order in which they come.
pub proof fn law_loudness_takes_in_every_sample(samples: Seq<u32>, x: u32)
    ensures
        wav::energy(samples.push(x)) == binary32::sum_of(
            wav::energy(samples),
            binary32::product_of(x, x),
        ),
        wav::energy(Seq::empty()) == 0,
        wav::root_mean_square(samples) == binary32::root_of(
            binary32::quotient_of(wav::energy(samples), binary32::integer(samples.len() as int)),
        ),
{
    assert(samples.push(x).drop_last() =~= samples);
}

/// The samples of a layout are what their bytes stand for.
proof fn lemma_samples(b: Seq<u8>, layout: wav::WavLayout, q: int, len: int, block: int)
    requires
        0 <= q,
        q + len <= b.len(),
        layout.start == q,
        block == layout.bits / 8,
        wav::supported(layout.encoding as nat, layout.bits as nat),
        wav::frames_of(layout) * block == len,
        forall|k: int|
            0 <= k < wav::frames_of(layout) && layout.encoding == 3 ==> binary32::magnitude(
                #[trigger] number(b, q + 4 * k) as u32,
            ) < 0x7f80_0000,
    ensures
        ({
            let stored = wav::stored_samples(b, layout);
            let samples = binary32::all_limited(stored);
            &&& forall|k: int| 0 <= k < stored.len() ==> binary32::finite(#[trigger] stored[k])
            &&& samples_stand_for(
                b,
                q,
                len,
                layout.encoding as int,
                layout.bits as int,
                samples,
            )
            &&& fidelity::full_scale(samples)
        }),
{
    let stored = wav::stored_samples(b, layout);
    let samples = binary32::all_limited(stored);
    let n = stored.len();
    let encoding = layout.encoding as int;
    let bits = layout.bits as int;
    assert forall|k: int| 0 <= k < n implies binary32::finite(#[trigger] stored[k]) && stands_for(
        b,
        q + k * block,
        encoding,
        bits,
        samples[k],
    ) by {
        assert(0 <= k * block && k * block + block <= n * block) by (nonlinear_arith)
            requires
                0 <= k < n,
                block >= 0,
        ;
        if encoding == 3 {
            assert(k * block == 4 * k) by (nonlinear_arith)
                requires
                    block == 4,
            ;
            assert(binary32::magnitude(number(b, q + 4 * k) as u32) < 0x7f80_0000);
        }
        lemma_stored_stands_for(b, q + k * block, layout.encoding, layout.bits);
    }
    assert forall|k: int| 0 <= k < n implies stands_for(
        b,
        q + k * block,
        encoding,
        bits,
        #[trigger] samples[k],
    ) by {
        assert(binary32::finite(stored[k]));
    }
    assert forall|k: int| 0 <= k < n implies binary32::magnitude(#[trigger] samples[k])
        <= binary32::ONE by {
        assert(stands_for(b, q + k * block, encoding, bits, samples[k]));
    }
}

/// Two to thirty seconds are some samples, and fewer than 2^24.
proof fn lemma_sample_count(n: int, block: int, len: int, rate: int)
    by (nonlinear_arith)
    requires
        n * block == len,
        2 * rate * block <= len <= 30 * rate * block,
        8_000 <= rate <= 96_000,
        block >= 1,
    ensures
        0 < n < 0x100_0000,
{
    if n >= 0x100_0000 {
        assert(n * block >= 0x100_0000 * block);
        assert((30 * rate) * block <= 2_880_000 * block);
    }
    if n <= 0 {
        assert(n * block <= 0);
        assert((2 * rate) * block >= 16_000 * block);
    }
}

/// What decoding a layout gives.
proof fn lemma_decoded(b: Seq<u8>, layout: wav::WavLayout, q: int, len: int, block: int)
    requires
        0 <= q,
        q + len <= b.len(),
        layout.start == q,
        block == layout.bits / 8,
        wav::supported(layout.encoding as nat, layout.bits as nat),
        wav::frames_of(layout) * block == len,
        0 < wav::frames_of(layout) < 0x100_0000,
        wav::layout_of(b) == Ok::<wav::WavLayout, Seq<char>>(layout),
    ensures
        match wav::decoded(b) {
            Ok((rate, samples)) => {
                &&& rate == layout.sample_rate
                &&& samples_stand_for(
                    b,
                    q,
                    len,
                    layout.encoding as int,
                    layout.bits as int,
                    samples,
                )
                &&& layout.encoding == 3 ==> all_finite(b, q, len)
                &&& loud_enough(samples)
            },
            Err(m) => {
                ||| m == "Voice WAV contains non-finite samples"@ && layout.encoding == 3
                    && !all_finite(b, q, len)
                ||| m == "Voice WAV is silent or too quiet to clone"@ && exists|samples: Seq<u32>|
                    #[trigger] samples_stand_for(
                        b,
                        q,
                        len,
                        layout.encoding as int,
                        layout.bits as int,
                        samples,
                    ) && !loud_enough(samples) && !fidelity::audible(samples)
            },
        },
{
    let n = wav::frames_of(layout);
    let stored = wav::stored_samples(b, layout);
    let samples = binary32::all_limited(stored);
    if layout.encoding == 3 {
        assert(n * block == 4 * n) by (nonlinear_arith)
            requires
                block == 4,
        ;
    }
    if forall|k: int|
        0 <= k < n && layout.encoding == 3 ==> binary32::magnitude(
            #[trigger] number(b, q + 4 * k) as u32,
        ) < 0x7f80_0000 {
        lemma_samples(b, layout, q, len, block);
        if layout.encoding == 3 {
            assert(all_finite(b, q, len)) by {
                assert forall|k: int| 0 <= k && 4 * k + 4 <= len implies binary32::magnitude(
                    #[trigger] number(b, q + 4 * k) as u32,
                ) < 0x7f80_0000 by {
                    assert(k < n);
                }
            }
        }
        assert(wav::too_quiet(samples) == !loud_enough(samples));
        if fidelity::audible(samples) {
            fidelity::law_audible_samples_are_loud_enough(samples);
        }
    } else {
        let k = choose|k: int|
            0 <= k < n && layout.encoding == 3 && binary32::magnitude(
                #[trigger] number(b, q + 4 * k) as u32,
            ) >= 0x7f80_0000;
        assert(4 * k + 4 <= len);
        assert(!all_finite(b, q, len));
        assert(wav::le32(b, q + 4 * k) == number(b, q + 4 * k));
        assert(wav::sample_bytes(layout.bits as nat) == 4);
        assert(stored[k] == wav::stored_sample(b, q + k * 4, layout.encoding, layout.bits));
        assert(!binary32::finite(stored[k]));
    }
}

/// A well-formed recording is accepted, and read as what its bytes stand for.  Two things
/// refuse it, and are named: a binary32 sample that is not finite, or samples that are not
/// loud enough, whose exact root mean square is then below 0.001.  What else is in the
/// file, and what its format chunk holds behind its first 16 bytes, makes no difference,
/// unless it is extensible.
#[verifier::rlimit(30)]
pub proof fn law_wellformed_recordings_are_accepted(b: Seq<u8>, at: Seq<int>, f: int, d: int)
    requires
        b.len() <= usize::MAX,
        begins_as_wave(b),
        chunks_at(b, at),
        last_format(b, at, f),
        last_data(b, at, d),
        can_be_read(b, at[f] + 8, number(b, at[f] + 4), number(b, at[d] + 4)),
    ensures
        ({
            let p = at[f] + 8;
            let q = at[d] + 8;
            let len = number(b, at[d] + 4);
            let encoding = encoding_at(b, p, number(b, at[f] + 4));
            let bits = b[p + 14] + 0x100 * b[p + 15];
            match wav::decoded(b) {
                Ok((rate, samples)) => {
                    &&& rate == number(b, p + 4)
                    &&& samples_stand_for(b, q, len, encoding, bits, samples)
                    &&& encoding == 3 ==> all_finite(b, q, len)
                    &&& loud_enough(samples)
                },
                Err(m) => {
                    ||| m == "Voice WAV contains non-finite samples"@ && encoding == 3
                        && !all_finite(b, q, len)
                    ||| m == "Voice WAV is silent or too quiet to clone"@ && exists|samples: Seq<u32>|
                        #[trigger] samples_stand_for(b, q, len, encoding, bits, samples)
                            && !loud_enough(samples) && !fidelity::audible(samples)
                },
            }
        }),
{
    let p = at[f] + 8;
    let q = at[d] + 8;
    let size = number(b, at[f] + 4);
    let len = number(b, at[d] + 4);
    let encoding = encoding_at(b, p, size);
    let bits = b[p + 14] + 0x100 * b[p + 15];
    lemma_layout(b, at, f, d);
    lemma_declared(b, p, size, q, len);
    let layout = wav::layout_of(b)->Ok_0;
    let block = bits / 8;
    lemma_sample_count(wav::frames_of(layout) as int, block, len, number(b, p + 4));
    lemma_decoded(b, layout, q, len, block);
}

/// Whether a file is refused with a message.
pub open spec fn refused(b: Seq<u8>, message: Seq<char>) -> bool {
    wav::decoded(b) == Err::<(u32, Seq<u32>), Seq<char>>(message)
}

/// Every other file is refused, and what is wrong with it is named: that it does not begin
/// as a WAV file does, has no format or no data chunk, or that its last format chunk
/// declares what cannot be read.
pub proof fn law_other_files_are_refused(b: Seq<u8>, at: Seq<int>, f: int, d: int)
    requires
        b.len() <= usize::MAX,
    ensures
        !begins_as_wave(b) ==> refused(b, "Selected file is not a valid RIFF/WAVE file"@),
        begins_as_wave(b) && chunks_at(b, at) ==> {
            &&& (forall|j: int|
                0 <= j < at.len() - 1 ==> !tag_at(
                    b,
                    #[trigger] at[j],
                    seq![0x66u8, 0x6du8, 0x74u8, 0x20u8],
                )) ==> refused(b, "Selected WAV has no format chunk"@)
            &&& last_format(b, at, f) && (forall|j: int|
                0 <= j < at.len() - 1 ==> !tag_at(
                    b,
                    #[trigger] at[j],
                    seq![0x64u8, 0x61u8, 0x74u8, 0x61u8],
                )) ==> refused(b, "Selected WAV has no audio data"@)
            &&& last_format(b, at, f) && last_data(b, at, d) && !can_be_read(
                b,
                at[f] + 8,
                number(b, at[f] + 4),
                number(b, at[d] + 4),
            ) ==> refused(b, why_not(b, at[f] + 8, number(b, at[f] + 4), number(b, at[d] + 4)))
        },
{
    if b.len() >= 12 {
        lemma_tagged(b, 0, wav::riff_tag());
        lemma_tagged(b, 8, wav::wave_tag());
    }
    if begins_as_wave(b) && chunks_at(b, at) {
        let none = wav::Found { format: None, data: None };
        if forall|j: int|
            0 <= j < at.len() - 1 ==> !tag_at(b, #[trigger] at[j], wav::format_tag()) {
            let e = lemma_last_data(b, at, at.len() - 1);
            lemma_walk(b, at, 0, none, -1, e);
        } else if last_format(b, at, f) {
            if forall|j: int|
                0 <= j < at.len() - 1 ==> !tag_at(b, #[trigger] at[j], wav::data_tag()) {
                lemma_walk(b, at, 0, none, f, -1);
            } else if last_data(b, at, d) {
                lemma_layout(b, at, f, d);
                lemma_declared(
                    b,
                    at[f] + 8,
                    number(b, at[f] + 4),
                    at[d] + 8,
                    number(b, at[d] + 4),
                );
            }
        }
    }
}

/// Where the last data chunk before `n` is, if there is one.
proof fn lemma_last_data(b: Seq<u8>, at: Seq<int>, n: int) -> (d: int)
    requires
        0 <= n < at.len(),
    ensures
        -1 <= d < n,
        d >= 0 ==> tag_at(b, at[d], wav::data_tag()),
        forall|j: int| d < j < n ==> !tag_at(b, #[trigger] at[j], wav::data_tag()),
    decreases n,
{
    if n == 0 {
        -1
    } else if tag_at(b, at[n - 1], wav::data_tag()) {
        n - 1
    } else {
        lemma_last_data(b, at, n - 1)
    }
}

/// What is said of a chunk that would end at `end`, behind the end of the file.
pub open spec fn cut_off(end: int) -> Seq<char> {
    if end > usize::MAX {
        "WAV chunk size overflow"@
    } else {
        "Selected WAV contains a truncated chunk"@
    }
}

/// A file that ends in the middle of a chunk is refused: where chunks fit up to the one at
/// `at.last()`, and that one does not, nothing is decoded.
pub proof fn law_truncated_files_are_refused(b: Seq<u8>, at: Seq<int>)
    requires
        b.len() <= usize::MAX,
        begins_as_wave(b),
        at.len() > 0,
        at[0] == 12,
        forall|i: int| 0 <= i < at.len() - 1 ==> #[trigger] fits(b, at, i),
        at.last() + 8 <= b.len(),
        at.last() + 8 + number(b, at.last() + 4) > b.len(),
    ensures
        refused(b, cut_off(at.last() + 8 + number(b, at.last() + 4))),
{
    lemma_tagged(b, 0, wav::riff_tag());
    lemma_tagged(b, 8, wav::wave_tag());
    lemma_truncated_walk(b, at, 0, wav::Found { format: None, data: None });
}

/// Walking the chunks of a truncated file fails.
proof fn lemma_truncated_walk(b: Seq<u8>, at: Seq<int>, i: int, found: wav::Found)
    requires
        b.len() <= usize::MAX,
        0 <= i < at.len(),
        12 <= at[i],
        forall|i: int| 0 <= i < at.len() - 1 ==> #[trigger] fits(b, at, i),
        at.last() + 8 <= b.len(),
        at.last() + 8 + number(b, at.last() + 4) > b.len(),
    ensures
        wav::walked(b, at[i], found) == Err::<wav::Found, Seq<char>>(
            cut_off(at.last() + 8 + number(b, at.last() + 4)),
        ),
    decreases at.len() - i,
{
    let p = at[i];
    let size = number(b, p + 4);
    assert(wav::le32(b, p + 4) == size);
    if i < at.len() - 1 {
        let now = if wav::tagged(b, p, wav::format_tag()) {
            wav::Found { format: Some((p + 8, p + 8 + size)), data: found.data }
        } else if wav::tagged(b, p, wav::data_tag()) {
            wav::Found { format: found.format, data: Some((p + 8, p + 8 + size)) }
        } else {
            found
        };
        assert(fits(b, at, i));
        lemma_truncated_walk(b, at, i + 1, now);
    } else {
        assert(at[i] == at.last());
    }
}

} // verus!
