//! Mathematical model of the wire format's bit packing: values are written as
//! fixed-width fields, most-significant bit first, into a stream of bytes; a
//! final partial byte is flushed with its unused low-order bits zero.

use vstd::prelude::*;
use vstd::arithmetic::power2::{
    lemma2_to64, lemma_pow2_adds, lemma_pow2_pos, lemma_pow2_strictly_increases, pow2,
};
use vstd::arithmetic::div_mod::{lemma_div_denominator, lemma_fundamental_div_mod};

verus! {

/// Bit `i` (most-significant first) of `val` read as a `width`-bit field.
pub open spec fn field_bit(width: nat, val: nat, i: int) -> bool {
    (val / pow2((width - 1 - i) as nat)) % 2 == 1
}

/// The bits of `val` as a `width`-bit field, most-significant bit first.
pub open spec fn field_bits(width: nat, val: nat) -> Seq<bool> {
    Seq::new(width, |i: int| field_bit(width, val, i))
}

/// The value of a bit string read most-significant bit first.
pub open spec fn bits_value(bits: Seq<bool>) -> nat
    decreases bits.len(),
{
    if bits.len() == 0 {
        0
    } else {
        bits_value(bits.drop_last()) * 2 + (if bits.last() {
            1nat
        } else {
            0nat
        })
    }
}

/// Packs a bit string into bytes, eight bits per byte, most-significant bit
/// first; a final partial byte keeps its used bits high and its unused
/// low-order bits zero.
pub open spec fn pack_bits(bits: Seq<bool>) -> Seq<u8>
    decreases bits.len(),
{
    if bits.len() == 0 {
        Seq::empty()
    } else if bits.len() < 8 {
        seq![(bits_value(bits) * pow2((8 - bits.len()) as nat)) as u8]
    } else {
        seq![bits_value(bits.take(8)) as u8] + pack_bits(bits.skip(8))
    }
}

/// All bits of a byte string, most-significant bit of each byte first.
pub open spec fn bytes_to_bits(s: Seq<u8>) -> Seq<bool> {
    Seq::new(s.len() * 8, |i: int| field_bit(8, s[i / 8] as nat, i % 8))
}

pub proof fn lemma_bits_value_bound(bits: Seq<bool>)
    ensures
        bits_value(bits) < pow2(bits.len()),
    decreases bits.len(),
{
    if bits.len() == 0 {
        lemma2_to64();
    } else {
        lemma_bits_value_bound(bits.drop_last());
        lemma_pow2_adds((bits.len() - 1) as nat, 1);
        lemma2_to64();
    }
}

pub proof fn lemma_bits_value_push(bits: Seq<bool>, b: bool)
    ensures
        bits_value(bits.push(b)) == bits_value(bits) * 2 + (if b {
            1nat
        } else {
            0nat
        }),
{
    assert(bits.push(b).drop_last() =~= bits);
    assert(bits.push(b).last() == b);
}

/// Packing a whole number of bytes followed by more bits packs each part
/// separately.
pub proof fn lemma_pack_bits_append_block(a: Seq<bool>, b: Seq<bool>)
    requires
        a.len() % 8 == 0,
    ensures
        pack_bits(a + b) == pack_bits(a) + pack_bits(b),
    decreases a.len(),
{
    if a.len() == 0 {
        assert(a + b =~= b);
        assert(pack_bits(a) + pack_bits(b) =~= pack_bits(b));
    } else {
        assert(a.len() >= 8);
        let ab = a + b;
        assert(ab.len() >= 8);
        assert(ab.take(8) =~= a.take(8));
        assert(ab.skip(8) =~= a.skip(8) + b);
        assert(a.skip(8).len() % 8 == 0);
        lemma_pack_bits_append_block(a.skip(8), b);
        assert(pack_bits(a) == seq![bits_value(a.take(8)) as u8] + pack_bits(a.skip(8)));
        assert(pack_bits(ab) =~= pack_bits(a) + pack_bits(b));
    }
}

/// A string of exactly eight bits packs to the single byte holding its value.
pub proof fn lemma_pack_bits_full(c: Seq<bool>)
    requires
        c.len() == 8,
    ensures
        pack_bits(c) == seq![bits_value(c) as u8],
        bits_value(c) < 256,
{
    lemma_bits_value_bound(c);
    lemma2_to64();
    assert(c.take(8) =~= c);
    assert(c.skip(8) =~= Seq::<bool>::empty());
    assert(pack_bits(c) == seq![bits_value(c.take(8)) as u8] + pack_bits(c.skip(8)));
    assert(pack_bits(c.skip(8)) =~= Seq::<u8>::empty());
    assert(pack_bits(c) =~= seq![bits_value(c) as u8]);
}

/// The number of bytes needed to pack a bit string: one per eight bits,
/// rounded up.
pub proof fn lemma_pack_bits_len(bits: Seq<bool>)
    ensures
        pack_bits(bits).len() == (bits.len() + 7) / 8,
    decreases bits.len(),
{
    if bits.len() == 0 {
    } else if bits.len() < 8 {
    } else {
        lemma_pack_bits_len(bits.skip(8));
    }
}

/// Reading the bits of a value's field representation gives the value back.
pub proof fn lemma_field_bits_value(width: nat, val: nat)
    requires
        val < pow2(width),
    ensures
        bits_value(field_bits(width, val)) == val,
    decreases width,
{
    if width == 0 {
        lemma2_to64();
        assert(field_bits(0, val) =~= Seq::<bool>::empty());
    } else {
        let half = val / 2;
        lemma_pow2_adds((width - 1) as nat, 1);
        lemma2_to64();
        assert(pow2(width) == pow2((width - 1) as nat) * 2);
        assert(half < pow2((width - 1) as nat)) by {
            if half >= pow2((width - 1) as nat) {
                assert(val >= half * 2) by {
                    lemma_fundamental_div_mod(val as int, 2);
                }
                assert(val >= pow2((width - 1) as nat) * 2);
            }
        }
        lemma_field_bits_value((width - 1) as nat, half);
        let fb = field_bits(width, val);
        assert(fb.drop_last() =~= field_bits((width - 1) as nat, half)) by {
            assert forall|i: int| 0 <= i < width - 1 implies fb.drop_last()[i] == field_bits(
                (width - 1) as nat,
                half,
            )[i] by {
                let e = (width - 1 - i - 1) as nat;
                assert(field_bit((width - 1) as nat, half, i) == ((half / pow2(e)) % 2 == 1));
                assert(field_bit(width, val, i) == ((val / pow2((e + 1) as nat)) % 2 == 1));
                lemma_pow2_adds(1, e);
                lemma_pow2_pos(e);
                lemma_div_denominator(val as int, 2, pow2(e) as int);
                assert(val as int / 2 / pow2(e) as int == val as int / (2 * pow2(e)) as int);
                assert(pow2((e + 1) as nat) == 2 * pow2(e));
            }
        }
        assert(fb.last() == ((val / pow2(0)) % 2 == 1));
        assert(pow2(0) == 1);
        assert(val / 1 == val as int);
        assert(bits_value(fb) == half * 2 + (if val % 2 == 1 {
            1nat
        } else {
            0nat
        }));
        lemma_fundamental_div_mod(val as int, 2);
        assert(val % 2 == 0 || val % 2 == 1);
    }
}

/// Taking a value's bits gives back the bit string they came from.
pub proof fn lemma_value_field_bits(bits: Seq<bool>)
    ensures
        field_bits(bits.len(), bits_value(bits)) =~= bits,
    decreases bits.len(),
{
    if bits.len() == 0 {
        assert(field_bits(0, bits_value(bits)) =~= Seq::<bool>::empty());
    } else {
        let n = bits.len();
        let v = bits_value(bits);
        let vpre = bits_value(bits.drop_last());
        let last: nat = if bits.last() {
            1
        } else {
            0
        };
        assert(v == vpre * 2 + last);
        lemma_value_field_bits(bits.drop_last());
        assert forall|i: int| 0 <= i < n implies field_bits(n, v)[i] == bits[i] by {
            if i == n - 1 {
                assert(pow2(0) == 1) by {
                    lemma2_to64();
                }
                assert(v / pow2(0) == v);
                assert(v % 2 == last) by {
                    lemma_fundamental_div_mod(v as int, 2);
                }
            } else {
                let e = (n - 1 - i - 1) as nat;
                assert(field_bits((n - 1) as nat, vpre)[i] == bits.drop_last()[i]);
                assert(field_bit((n - 1) as nat, vpre, i) == ((vpre / pow2(e)) % 2 == 1));
                assert(v / 2 == vpre) by {
                    lemma_fundamental_div_mod(v as int, 2);
                }
                lemma_pow2_adds(1, e);
                lemma_pow2_pos(e);
                lemma2_to64();
                lemma_div_denominator(v as int, 2, pow2(e) as int);
                assert(v as int / 2 / pow2(e) as int == v as int / (2 * pow2(e)) as int);
                assert(field_bit(n, v, i) == ((v / pow2((e + 1) as nat)) % 2 == 1));
                assert(pow2((e + 1) as nat) == 2 * pow2(e));
            }
        }
    }
}

/// The high `k` bits of a `width`-bit field are the field of the value's high
/// part.
pub proof fn lemma_field_bits_take(width: nat, val: nat, k: nat)
    requires
        k <= width,
    ensures
        field_bits(width, val).take(k as int) =~= field_bits(k, val / pow2((width - k) as nat)),
{
    let hi = val / pow2((width - k) as nat);
    assert forall|i: int| 0 <= i < k implies field_bits(width, val).take(k as int)[i] == field_bits(
        k,
        hi,
    )[i] by {
        let e = (k - 1 - i) as nat;
        assert(field_bit(k, hi, i) == ((hi / pow2(e)) % 2 == 1));
        assert(field_bit(width, val, i) == ((val / pow2((width - 1 - i) as nat)) % 2 == 1));
        lemma_pow2_pos((width - k) as nat);
        lemma_pow2_pos(e);
        lemma_div_denominator(val as int, pow2((width - k) as nat) as int, pow2(e) as int);
        lemma_pow2_adds((width - k) as nat, e);
        assert((width - k) + e == width - 1 - i);
    }
}

/// The low bits of a `width`-bit field are the field of the value reduced
/// modulo the matching power of two.
pub proof fn lemma_field_bits_skip(width: nat, val: nat, k: nat)
    requires
        k <= width,
    ensures
        field_bits(width, val).skip(k as int) =~= field_bits(
            (width - k) as nat,
            val % pow2((width - k) as nat),
        ),
{
    let m = pow2((width - k) as nat);
    lemma_pow2_pos((width - k) as nat);
    let lo = val % m;
    assert forall|i: int| 0 <= i < width - k implies field_bits(width, val).skip(k as int)[i]
        == field_bits((width - k) as nat, lo)[i] by {
        let e = (width - k - 1 - i) as nat;
        assert(field_bit((width - k) as nat, lo, i) == ((lo / pow2(e)) % 2 == 1));
        assert(field_bit(width, val, k + i) == ((val / pow2(e)) % 2 == 1));
        // val = m * q + lo, and pow2(e) * 2 divides m, so dividing by pow2(e)
        // and reducing mod 2 ignores the m * q part.
        let q = val / m;
        lemma_fundamental_div_mod(val as int, m as int);
        assert(val == m * q + lo);
        lemma_pow2_pos(e);
        let p = pow2(e) as int;
        assert(pow2((e + 1) as nat) * pow2((width - k - 1 - e) as nat) == m) by {
            lemma_pow2_adds((e + 1) as nat, (width - k - 1 - e) as nat);
        }
        lemma_pow2_adds(1, e);
        lemma2_to64();
        assert(pow2((e + 1) as nat) == 2 * p);
        let w = pow2((width - k - 1 - e) as nat) as int;
        assert(m == 2 * p * w);
        assert(val == lo + (2 * w * q) * p) by (nonlinear_arith)
            requires
                val == m * q + lo,
                m == 2 * p * w,
        ;
        assert(lo as int / p + 2 * w * q == (lo + (2 * w * q) * p) / p) by {
            vstd::arithmetic::div_mod::lemma_hoist_over_denominator(
                lo as int,
                2 * w * q,
                pow2(e),
            );
        }
        assert(val as int / p == lo as int / p + 2 * (w * q)) by (nonlinear_arith)
            requires
                val as int / p == lo as int / p + 2 * w * q,
        ;
        assert((2 * (w * q) + lo as int / p) % 2 == (lo as int / p) % 2) by {
            vstd::arithmetic::div_mod::lemma_mod_multiples_vanish(
                w * q,
                lo as int / p,
                2,
            );
        }
    }
}

/// Unpacking packed bits gives the original bits followed by the zero padding
/// of the final partial byte.
pub proof fn lemma_bytes_to_bits_pack(bits: Seq<bool>)
    ensures
        bytes_to_bits(pack_bits(bits)) =~= bits + Seq::new(
            (pack_bits(bits).len() * 8 - bits.len()) as nat,
            |i: int| false,
        ),
    decreases bits.len(),
{
    lemma_pack_bits_len(bits);
    if bits.len() == 0 {
    } else if bits.len() < 8 {
        let n = bits.len();
        let v = bits_value(bits);
        let pad = (8 - n) as nat;
        let byte = (v * pow2(pad)) as nat;
        lemma_bits_value_bound(bits);
        assert(byte < 256) by {
            lemma_pow2_pos(pad);
            lemma_pow2_adds(n, pad);
            lemma2_to64();
            assert(v + 1 <= pow2(n));
            assert((v + 1) * pow2(pad) <= pow2(n) * pow2(pad)) by (nonlinear_arith)
                requires
                    v + 1 <= pow2(n),
                    pow2(pad) > 0,
            ;
            assert(v * pow2(pad) + pow2(pad) <= 256) by (nonlinear_arith)
                requires
                    (v + 1) * pow2(pad) <= 256,
            ;
        }
        let unpacked = bytes_to_bits(pack_bits(bits));
        assert(pack_bits(bits) == seq![byte as u8]);
        assert(unpacked.len() == 8);
        // byte = v * 2^pad, so its high n bits are the bits of v and its low
        // pad bits are zero.
        assert forall|i: int| 0 <= i < 8 implies unpacked[i] == (bits + Seq::new(
            pad,
            |j: int| false,
        ))[i] by {
            assert(unpacked[i] == field_bit(8, byte, i));
            let e = (8 - 1 - i) as nat;
            lemma_pow2_pos(e);
            lemma_pow2_pos(pad);
            if i < n {
                // field_bit(8, v * 2^pad, i) == field_bit(n, v, i)
                assert(e >= pad);
                let d = (e - pad) as nat;
                lemma_pow2_adds(pad, d);
                lemma_pow2_pos(d);
                assert(byte as int / pow2(e) as int == v as int / pow2(d) as int) by {
                    lemma_div_denominator(byte as int, pow2(pad) as int, pow2(d) as int);
                    assert(byte as int / pow2(pad) as int == v) by {
                        vstd::arithmetic::div_mod::lemma_div_by_multiple(
                            v as int,
                            pow2(pad) as int,
                        );
                    }
                }
                lemma_value_field_bits(bits);
                assert(field_bits(n, v)[i] == bits[i]);
                assert((n - 1 - i) as nat == d);
            } else {
                // the padding bits of the byte are zero
                assert(e < pad);
                let d = (pad - e) as nat;
                lemma_pow2_adds(e, d);
                assert(byte as int / pow2(e) as int == v * pow2(d)) by {
                    assert(byte == (v * pow2(d)) * pow2(e)) by (nonlinear_arith)
                        requires pow2(pad) == pow2(e) * pow2(d), byte == v * pow2(pad);
                    vstd::arithmetic::div_mod::lemma_div_by_multiple(
                        (v * pow2(d)) as int,
                        pow2(e) as int,
                    );
                }
                assert(d >= 1);
                assert(pow2(d) == pow2((d - 1) as nat) * 2) by {
                    lemma_pow2_adds((d - 1) as nat, 1);
                    lemma2_to64();
                }
                assert(v * pow2(d) == (v * pow2((d - 1) as nat)) * 2) by (nonlinear_arith)
                    requires
                        pow2(d) == pow2((d - 1) as nat) * 2,
                ;
                vstd::arithmetic::div_mod::lemma_mod_multiples_basic(
                    (v * pow2((d - 1) as nat)) as int,
                    2,
                );
                assert(!field_bit(8, byte, i));
            }
        }
    } else {
        let head = bits.take(8);
        let tail = bits.skip(8);
        lemma_bytes_to_bits_pack(tail);
        lemma_pack_bits_len(tail);
        lemma_pack_bits_full(head);
        assert(pack_bits(bits) == seq![bits_value(head) as u8] + pack_bits(tail));
        let unpacked = bytes_to_bits(pack_bits(bits));
        let subrest = bytes_to_bits(pack_bits(tail));
        let pad_len = (pack_bits(bits).len() * 8 - bits.len()) as nat;
        assert forall|i: int| 0 <= i < unpacked.len() implies unpacked[i] == (bits + Seq::new(
            pad_len,
            |j: int| false,
        ))[i] by {
            if i < 8 {
                assert(unpacked[i] == field_bit(8, bits_value(head), i));
                lemma_value_field_bits(head);
                assert(field_bits(8, bits_value(head))[i] == head[i]);
            } else {
                assert(pack_bits(bits)[i / 8] == pack_bits(tail)[i / 8 - 1]);
                assert(unpacked[i] == field_bit(
                    8,
                    pack_bits(tail)[(i - 8) / 8] as nat,
                    (i - 8) % 8,
                ));
                assert(subrest[i - 8] == unpacked[i]);
                assert(subrest =~= tail + Seq::new(
                    (pack_bits(tail).len() * 8 - tail.len()) as nat,
                    |j: int| false,
                ));
            }
        }
    }
}

/// The bits of concatenated byte strings are the concatenated bits.
pub proof fn lemma_bytes_to_bits_append(a: Seq<u8>, b: Seq<u8>)
    ensures
        bytes_to_bits(a + b) =~= bytes_to_bits(a) + bytes_to_bits(b),
{
    assert forall|i: int| 0 <= i < (a + b).len() * 8 implies bytes_to_bits(a + b)[i] == (
    bytes_to_bits(a) + bytes_to_bits(b))[i] by {
        if i < a.len() * 8 {
            assert(i / 8 < a.len()) by {
                if i / 8 >= a.len() {
                    assert(i >= (i / 8) * 8) by {
                        lemma_fundamental_div_mod(i, 8);
                    }
                }
            }
            assert((a + b)[i / 8] == a[i / 8]);
        } else {
            let j = i - a.len() * 8;
            assert(j / 8 == i / 8 - a.len() && j % 8 == i % 8) by {
                lemma_fundamental_div_mod(j, 8);
                vstd::arithmetic::div_mod::lemma_fundamental_div_mod_converse(
                    i,
                    8,
                    j / 8 + a.len() as int,
                    j % 8,
                );
            }
            assert(i / 8 >= a.len());
            assert((a + b)[i / 8] == b[i / 8 - a.len()]);
            assert(bytes_to_bits(b)[j] == field_bit(8, b[j / 8] as nat, j % 8));
        }
    }
}

/// When the bit count is no multiple of eight, the final packed byte's
/// unused low-order bits are zero: the byte is a multiple of the power of two
/// matching the padding width.
pub proof fn lemma_pack_bits_last_byte(bits: Seq<bool>)
    requires
        bits.len() % 8 != 0,
    ensures
        pack_bits(bits).len() == (bits.len() + 7) / 8,
        pack_bits(bits).last() as nat % pow2(
            (pack_bits(bits).len() * 8 - bits.len()) as nat,
        ) == 0,
    decreases bits.len(),
{
    lemma_pack_bits_len(bits);
    if bits.len() < 8 {
        let n = bits.len();
        let v = bits_value(bits);
        let pad = (8 - n) as nat;
        lemma_bits_value_bound(bits);
        lemma_pow2_pos(pad);
        assert((v + 1) * pow2(pad) <= pow2(n) * pow2(pad)) by (nonlinear_arith)
            requires
                v + 1 <= pow2(n),
                pow2(pad) > 0,
        ;
        lemma_pow2_adds(n, pad);
        lemma2_to64();
        assert(v * pow2(pad) + pow2(pad) <= 256) by (nonlinear_arith)
            requires
                (v + 1) * pow2(pad) <= 256,
        ;
        assert(pack_bits(bits).last() as nat == v * pow2(pad));
        vstd::arithmetic::div_mod::lemma_mod_multiples_basic(v as int, pow2(pad) as int);
    } else {
        lemma_pack_bits_last_byte(bits.skip(8));
        lemma_pack_bits_len(bits.skip(8));
        assert(pack_bits(bits) == seq![bits_value(bits.take(8)) as u8] + pack_bits(bits.skip(8)));
        assert(pack_bits(bits).last() == pack_bits(bits.skip(8)).last());
    }
}

/// Executable power of two for shifting and masking by field widths.
pub fn pow2_u32(e: u32) -> (r: u32)
    requires
        e < 32,
    ensures
        r as nat == pow2(e as nat),
{
    let mut r: u32 = 1;
    let mut i: u32 = 0;
    proof {
        lemma2_to64();
    }
    while i < e
        invariant
            i <= e,
            e < 32,
            r as nat == pow2(i as nat),
        decreases e - i,
    {
        proof {
            lemma_pow2_strictly_increases(i as nat, 31);
            lemma_pow2_adds(i as nat, 1);
            lemma2_to64();
        }
        r = r * 2;
        i = i + 1;
    }
    r
}

} // verus!
