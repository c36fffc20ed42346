use vstd::prelude::*;
use vstd::arithmetic::power2::{pow2, lemma_pow2_adds, lemma2_to64, lemma_pow2_pos};
use vstd::bits::{lemma_usize_shl_is_mul, lemma_usize_pow2_no_overflow};

verus! {

/// The number that the low seven bits of each byte of `s` spell out,
/// least significant group first.
pub open spec fn varint_value(s: Seq<u8>) -> nat
    decreases s.len(),
{
    if s.len() == 0 {
        0
    } else {
        (s[0] % 128) as nat + 128 * varint_value(s.drop_first())
    }
}

/// The length of the varint at the start of `s`: up to and including the
/// first byte whose high bit is clear; `None` when there is no such byte.
pub open spec fn varint_len(s: Seq<u8>) -> Option<int>
    decreases s.len(),
{
    if s.len() == 0 {
        None
    } else if s[0] < 0x80 {
        Some(1)
    } else {
        match varint_len(s.drop_first()) {
            Some(n) => Some(n + 1),
            None => None,
        }
    }
}

/// The number of seven-bit groups that a machine word can start: ten on a
/// 64-bit machine, five on a 32-bit one.
pub open spec fn word_groups() -> int {
    if usize::BITS == 64 {
        10
    } else {
        5
    }
}

/// The number of values that a machine word holds.
pub open spec fn word_modulus() -> nat {
    pow2(usize::BITS as nat)
}

/// Whether decoding one varint at the start of `s` stays within the groups
/// that a machine word can start: decoding panics when that many
/// continuation bytes are followed by a further byte.
pub open spec fn varint_decodable(s: Seq<u8>) -> bool {
    !(s.len() > word_groups() && forall|i: int| 0 <= i < word_groups() ==> s[i] >= 0x80)
}

/// The varint encoding of `n`: seven bits per byte, least significant
/// group first, the high bit set on every byte but the last.
pub open spec fn varint_encoding(n: nat) -> Seq<u8>
    decreases n,
{
    if n < 128 {
        seq![n as u8]
    } else {
        seq![(n % 128 + 128) as u8] + varint_encoding(n / 128)
    }
}

proof fn lemma_value_push(s: Seq<u8>, b: u8)
    ensures
        varint_value(s.push(b)) == varint_value(s) + (b % 128) as nat * pow2(7 * s.len()),
    decreases s.len(),
{
    if s.len() == 0 {
        assert(s.push(b).drop_first() =~= Seq::<u8>::empty());
        assert(s.push(b)[0] == b);
        assert(varint_value(s.push(b)) == (b % 128) as nat + 128 * varint_value(Seq::<u8>::empty()));
        assert(pow2(0) == 1) by {
            lemma2_to64();
        }
    } else {
        lemma_value_push(s.drop_first(), b);
        assert(s.push(b).drop_first() =~= s.drop_first().push(b));
        assert(s.push(b)[0] == s[0]);
        let k = (7 * (s.len() - 1)) as nat;
        lemma_pow2_adds(k, 7);
        assert(pow2(7) == 128) by {
            lemma2_to64();
        }
        assert(k + 7 == 7 * s.len());
        let v = varint_value(s.drop_first());
        let x = (b % 128) as nat;
        let p = pow2(k);
        assert(varint_value(s.push(b)) == (s[0] % 128) as nat + 128 * varint_value(s.drop_first().push(b)));
        assert(varint_value(s.drop_first().push(b)) == v + x * p);
        assert(varint_value(s) == (s[0] % 128) as nat + 128 * v);
        assert(128 * (v + x * p) == 128 * v + x * (p * 128)) by (nonlinear_arith);
        assert(pow2(7 * s.len()) == p * 128);
    }
}

proof fn lemma_len_prefix(s: Seq<u8>, i: int)
    requires
        0 <= i < s.len(),
        forall|j: int| 0 <= j < i ==> s[j] >= 0x80,
    ensures
        s[i] < 0x80 ==> varint_len(s) == Some(i + 1),
    decreases i,
{
    if i > 0 {
        lemma_len_prefix(s.drop_first(), i - 1);
    }
}

proof fn lemma_len_none(s: Seq<u8>)
    requires
        forall|j: int| 0 <= j < s.len() ==> s[j] >= 0x80,
    ensures
        varint_len(s) is None,
    decreases s.len(),
{
    if s.len() > 0 {
        lemma_len_none(s.drop_first());
    }
}

/// Law: the encoding of any 64-bit number is at most ten bytes long, ends
/// at its last byte, and spells out the number.
pub proof fn lemma_varint_encoding(n: u64)
    ensures
        varint_len(varint_encoding(n as nat)) == Some(varint_encoding(n as nat).len() as int),
        varint_value(varint_encoding(n as nat)) == n,
        1 <= varint_encoding(n as nat).len() <= 10,
{
    lemma_encoding_general(n as nat);
    assert(pow2(70) > u64::MAX) by {
        lemma2_to64();
        lemma_pow2_adds(64, 6);
    }
    lemma_encoding_len_bound(n as nat, 10);
}

/// Law: decoding undoes encoding. Whatever bytes follow the encoding of a
/// machine word, the varint at the start of them is exactly that encoding,
/// decoding it stays within the groups a word can start, and it spells out
/// the word.
pub proof fn lemma_varint_roundtrip(x: usize, rest: Seq<u8>)
    ensures
        ({
            let e = varint_encoding(x as nat);
            let s = e + rest;
            &&& varint_decodable(s)
            &&& varint_len(s) == Some(e.len() as int)
            &&& varint_value(s.take(e.len() as int)) % word_modulus() == x
        }),
{
    let e = varint_encoding(x as nat);
    let s = e + rest;
    lemma_encoding_general(x as nat);
    lemma_len_append(e, rest);
    lemma_len_last(e);
    assert(s.take(e.len() as int) =~= e);
    lemma2_to64();
    vstd::arithmetic::power2::lemma2_to64_rest();
    lemma_pow2_adds(64, 6);
    lemma_pow2_adds(32, 3);
    if usize::BITS == 64 {
        lemma_encoding_len_bound(x as nat, 10);
    } else {
        lemma_encoding_len_bound(x as nat, 5);
    }
    vstd::arithmetic::div_mod::lemma_small_mod(x as nat, word_modulus());
    if s.len() > word_groups() && forall|i: int| 0 <= i < word_groups() ==> s[i] >= 0x80 {
        assert(s[e.len() - 1] == e[e.len() - 1]);
        assert(s[e.len() - 1] >= 0x80);
    }
}

proof fn lemma_len_append(s: Seq<u8>, rest: Seq<u8>)
    requires
        varint_len(s) == Some(s.len() as int),
    ensures
        varint_len(s + rest) == Some(s.len() as int),
    decreases s.len(),
{
    assert((s + rest)[0] == s[0]);
    if s[0] >= 0x80 {
        assert((s + rest).drop_first() =~= s.drop_first() + rest);
        lemma_len_append(s.drop_first(), rest);
    }
}

proof fn lemma_len_last(s: Seq<u8>)
    requires
        varint_len(s) is Some,
    ensures
        1 <= varint_len(s)->0 <= s.len(),
        s[varint_len(s)->0 - 1] < 0x80,
    decreases s.len(),
{
    if s[0] >= 0x80 {
        lemma_len_last(s.drop_first());
    }
}

proof fn lemma_encoding_general(n: nat)
    ensures
        varint_len(varint_encoding(n)) == Some(varint_encoding(n).len() as int),
        varint_value(varint_encoding(n)) == n,
        varint_encoding(n).len() >= 1,
    decreases n,
{
    let e = varint_encoding(n);
    if n < 128 {
        assert(e.drop_first() =~= Seq::<u8>::empty());
        assert(e[0] == n);
        assert(varint_value(e) == (e[0] % 128) as nat + 128 * varint_value(e.drop_first()));
    } else {
        lemma_encoding_general(n / 128);
        assert(e.drop_first() =~= varint_encoding(n / 128));
        assert(e[0] == (n % 128 + 128) as u8);
        assert(e[0] % 128 == n % 128);
        assert(varint_value(e) == (e[0] % 128) as nat + 128 * varint_value(e.drop_first()));
        assert(n % 128 + 128 * (n / 128) == n);
    }
}

proof fn lemma_encoding_len_bound(n: nat, k: nat)
    requires
        n < pow2(7 * k),
        k >= 1,
    ensures
        varint_encoding(n).len() <= k,
    decreases k,
{
    if n >= 128 {
        lemma_pow2_adds(7 * (k - 1) as nat, 7);
        assert(pow2(7) == 128) by {
            lemma2_to64();
        }
        if k == 1 {
            assert(false);
        }
        assert(n / 128 < pow2(7 * (k - 1) as nat)) by (nonlinear_arith)
            requires
                n < pow2(7 * (k - 1) as nat) * 128,
        ;
        lemma_encoding_len_bound(n / 128, (k - 1) as nat);
    }
}

proof fn lemma_step(r: usize, x: usize, s: usize)
    requires
        usize::BITS == 64,
        s < 64,
        s <= 56 || s == 63,
        x < 128,
        (r as nat) < pow2(s as nat),
    ensures
        s <= 56 ==> (r | (x << s)) as nat == r + x * pow2(s as nat),
        s <= 56 ==> ((r | (x << s)) as nat) < pow2((s + 7) as nat),
        s == 63 ==> (r | (x << s)) as nat == (r as nat + x as nat * pow2(s as nat)) % pow2(64),
{
    lemma2_to64();
    vstd::arithmetic::power2::lemma2_to64_rest();
    assert(usize::MAX == 0xFFFF_FFFF_FFFF_FFFFnat);
    lemma_usize_pow2_no_overflow(s as nat);
    lemma_usize_shl_is_mul(1, s);
    assert((r | (x << s)) == r + (x << s)) by (bit_vector)
        requires
            s < 64,
            r < (1usize << s),
    ;
    lemma_pow2_adds(s as nat, 7);
    if s <= 56 {
        if s < 56 {
            vstd::arithmetic::power2::lemma_pow2_strictly_increases(s as nat, 56);
        }
        assert(x * pow2(s as nat) <= 127 * pow2(56)) by (nonlinear_arith)
            requires
                x < 128,
                pow2(s as nat) <= pow2(56),
        ;
        lemma_usize_shl_is_mul(x, s);
        assert(r + x * pow2(s as nat) < pow2(s as nat) * 128) by (nonlinear_arith)
            requires
                x <= 127,
                r < pow2(s as nat),
        ;
    } else {
        assert(x << 63 == (x % 2) << 63) by (bit_vector);
        lemma_usize_shl_is_mul(x % 2, 63);
        let p: nat = pow2(63);
        assert(p == 0x8000_0000_0000_0000);
        assert(pow2(64) == 2 * p);
        let w: nat = (r + (x % 2) * p) as nat;
        assert(w < 2 * p);
        assert(x * p == (x % 2) * p + (x / 2) * (2 * p)) by (nonlinear_arith);
        vstd::arithmetic::div_mod::lemma_mod_multiples_vanish((x / 2) as int, w as int, (2 * p) as int);
        vstd::arithmetic::div_mod::lemma_small_mod(w, (2 * p) as nat);
        assert((r as nat + x as nat * p) == (2 * p) * (x / 2) + w) by (nonlinear_arith)
            requires
                x * p == (x % 2) * p + (x / 2) * (2 * p),
                w == r + (x % 2) * p,
        ;
    }
}

proof fn lemma_step_32(r: usize, x: usize, s: usize)
    requires
        usize::BITS == 32,
        s <= 21 || s == 28,
        x < 128,
        (r as nat) < pow2(s as nat),
    ensures
        s <= 21 ==> (r | (x << s)) as nat == r + x * pow2(s as nat),
        s <= 21 ==> ((r | (x << s)) as nat) < pow2((s + 7) as nat),
        s == 28 ==> (r | (x << s)) as nat == (r as nat + x as nat * pow2(s as nat)) % pow2(32),
{
    lemma2_to64();
    assert(usize::MAX == 0xFFFF_FFFFnat);
    lemma_usize_pow2_no_overflow(s as nat);
    lemma_usize_shl_is_mul(1, s);
    assert((r | (x << s)) == r + (x << s)) by (bit_vector)
        requires
            usize::BITS == 32,
            s < 32,
            r < (1usize << s),
    ;
    lemma_pow2_adds(s as nat, 7);
    if s <= 21 {
        if s < 21 {
            vstd::arithmetic::power2::lemma_pow2_strictly_increases(s as nat, 21);
        }
        assert(x * pow2(s as nat) <= 127 * pow2(21)) by (nonlinear_arith)
            requires
                x < 128,
                pow2(s as nat) <= pow2(21),
        ;
        lemma_usize_shl_is_mul(x, s);
        assert(r + x * pow2(s as nat) < pow2(s as nat) * 128) by (nonlinear_arith)
            requires
                x <= 127,
                r < pow2(s as nat),
        ;
    } else {
        assert(x << 28 == (x % 16) << 28) by (bit_vector)
            requires
                usize::BITS == 32,
        ;
        lemma_usize_shl_is_mul(x % 16, 28);
        let p: nat = pow2(28);
        assert(p == 0x1000_0000);
        assert(pow2(32) == 16 * p);
        let w: nat = (r + (x % 16) * p) as nat;
        assert(w < 16 * p);
        assert(x * p == (x % 16) * p + (x / 16) * (16 * p)) by (nonlinear_arith);
        vstd::arithmetic::div_mod::lemma_mod_multiples_vanish((x / 16) as int, w as int, (16 * p) as int);
        vstd::arithmetic::div_mod::lemma_small_mod(w, (16 * p) as nat);
        assert((r as nat + x as nat * p) == (16 * p) * (x / 16) + w) by (nonlinear_arith)
            requires
                x * p == (x % 16) * p + (x / 16) * (16 * p),
                w == r + (x % 16) * p,
        ;
    }
}

pub trait Decoder<T> {
    /// The number that a decoded output element stands for.
    spec fn value_of(t: T) -> nat;

    /// Decodes values from `input` into `output` until `output` is full or
    /// the input holds no further complete value; returns the number of
    /// input bytes consumed and the number of values produced.
    fn decode(&self, input: &[u8], output: &mut [T]) -> (r: (usize, usize))
        requires
            decode_many_safe(input@, old(output)@.len() as nat),
        ensures
            final(output)@.len() == old(output)@.len(),
            r.0 == decode_many(input@, old(output)@.len() as nat).0,
            r.1 == decode_many(input@, old(output)@.len() as nat).1.len(),
            forall|k: int|
                0 <= k < r.1 ==> Self::value_of(final(output)@[k]) == decode_many(
                    input@,
                    old(output)@.len() as nat,
                ).1[k],
    ;
}

/// Decoding values one after another from the start of `s`, at most `max`
/// of them: the bytes consumed and the values, each taken modulo the size
/// of a machine word.
pub open spec fn decode_many(s: Seq<u8>, max: nat) -> (int, Seq<nat>)
    decreases max,
{
    if max == 0 {
        (0, seq![])
    } else {
        match varint_len(s) {
            None => (0, seq![]),
            Some(n) => {
                let rest = decode_many(s.skip(n), (max - 1) as nat);
                (n + rest.0, seq![varint_value(s.take(n)) % word_modulus()] + rest.1)
            },
        }
    }
}

/// Whether every single decode that `decode_many(s, max)` performs stays
/// within ten groups.
pub open spec fn decode_many_safe(s: Seq<u8>, max: nat) -> bool
    decreases max,
{
    if max == 0 {
        true
    } else {
        varint_decodable(s) && match varint_len(s) {
            None => true,
            Some(n) => decode_many_safe(s.skip(n), (max - 1) as nat),
        }
    }
}

pub struct GenericDecoder {}

impl GenericDecoder {
    pub fn new() -> Self {
        Self {  }
    }

    /// Decodes the varint at the start of `input` into `output` and returns
    /// its length, or returns `None` when `input` ends before the varint
    /// does.
    pub fn decode_one(&self, input: &[u8], output: &mut usize) -> (r: Option<usize>)
        requires
            varint_decodable(input@),
        ensures
            r == match varint_len(input@) {
                Some(n) => Some(n as usize),
                None => None::<usize>,
            },
            r is None ==> *final(output) == *old(output),
            r matches Some(n) ==> *final(output) as nat == varint_value(input@.take(n as int))
                % word_modulus(),
    {
        let mut i: usize = 0;
        let mut result: usize = 0;
        let mut shift: usize = 0;
        proof {
            lemma2_to64();
        }
        loop
            invariant
                i <= input@.len(),
                i <= word_groups(),
                shift == 7 * i,
                forall|j: int| 0 <= j < i ==> input@[j] >= 0x80,
                varint_decodable(input@),
                i < word_groups() ==> result as nat == varint_value(input@.take(i as int)),
                i < word_groups() ==> (result as nat) < pow2(7 * i as nat),
                i == word_groups() ==> result as nat == varint_value(input@.take(i as int))
                    % word_modulus(),
                pow2(64) == 0x1_0000_0000_0000_0000,
                pow2(32) == 0x1_0000_0000,
                *output == *old(output),
            decreases input@.len() - i,
        {
            if i >= input.len() {
                proof {
                    lemma_len_none(input@);
                }
                return None;
            }
            let this_byte = input[i];
            let x: usize = (this_byte & 0x7f) as usize;
            assert(x == this_byte % 128) by (bit_vector)
                requires
                    x == (this_byte & 0x7f) as usize,
            ;
            proof {
                lemma_value_push(input@.take(i as int), this_byte);
                assert(input@.take(i + 1) =~= input@.take(i as int).push(this_byte));
                lemma_pow2_pos(shift as nat);
            }
            let ghost old_result = result;
            let part: usize = x << shift;
            result = result | part;
            proof {
                if usize::BITS == 64 {
                    lemma_step(old_result, x, shift);
                } else {
                    lemma_step_32(old_result, x, shift);
                }
                if i == word_groups() - 1 {
                    vstd::arithmetic::div_mod::lemma_small_mod(old_result as nat, word_modulus());
                }
            }
            i += 1;
            shift += 7;
            if (this_byte >> 7) == 0 {
                assert(this_byte < 0x80) by (bit_vector)
                    requires
                        this_byte >> 7 == 0,
                ;
                proof {
                    lemma_len_prefix(input@, (i - 1) as int);
                }
                *output = result;
                return Some(i);
            }
            assert(this_byte >= 0x80) by (bit_vector)
                requires
                    this_byte >> 7 != 0,
            ;
        }
    }
}

} // verus!

verus! {

proof fn lemma_skip_skip(s: Seq<u8>, a: int, b: int)
    requires
        0 <= a,
        0 <= b,
        a + b <= s.len(),
    ensures
        s.skip(a).skip(b) == s.skip(a + b),
{
    assert(s.skip(a).skip(b) =~= s.skip(a + b));
}

proof fn lemma_varint_len_bound(s: Seq<u8>)
    ensures
        varint_len(s) matches Some(n) ==> 1 <= n <= s.len(),
    decreases s.len(),
{
    if s.len() > 0 {
        lemma_varint_len_bound(s.drop_first());
    }
}

impl Decoder<usize> for GenericDecoder {
    open spec fn value_of(t: usize) -> nat {
        t as nat
    }

    fn decode(&self, input: &[u8], output: &mut [usize]) -> (r: (usize, usize)) {
        let mut i: usize = 0;
        let mut o: usize = 0;
        let ghost max = output@.len() as nat;
        assert(input@.skip(0) =~= input@);
        while o < output.len()
            invariant
                output@.len() == max,
                o <= max,
                i <= input@.len(),
                decode_many_safe(input@.skip(i as int), (max - o) as nat),
                ({
                    let rest = decode_many(input@.skip(i as int), (max - o) as nat);
                    let all = decode_many(input@, max);
                    &&& all.0 == i + rest.0
                    &&& all.1.len() == o + rest.1.len()
                    &&& forall|k: int| 0 <= k < o ==> output@[k] as nat == all.1[k]
                    &&& forall|k: int| 0 <= k < rest.1.len() ==> all.1[o + k] == rest.1[k]
                }),
            ensures
                ({
                    let all = decode_many(input@, max);
                    &&& all.0 == i
                    &&& all.1.len() == o
                    &&& forall|k: int| 0 <= k < o ==> output@[k] as nat == all.1[k]
                }),
            decreases max - o,
        {
            let rest = &input[i..input.len()];
            assert(rest@ == input@.skip(i as int));
            let mut value: usize = output[o];
            match self.decode_one(rest, &mut value) {
                Some(input_consumed) => {
                    proof {
                        lemma_varint_len_bound(rest@);
                        lemma_skip_skip(input@, i as int, input_consumed as int);
                        vstd::arithmetic::power2::lemma2_to64();
                        vstd::arithmetic::power2::lemma2_to64_rest();
                        vstd::arithmetic::div_mod::lemma_mod_bound(
                            varint_value(rest@.take(input_consumed as int)) as int,
                            word_modulus() as int,
                        );
                    }
                    proof {
                        let n = input_consumed as int;
                        let r1 = decode_many(rest@.skip(n), (max - o - 1) as nat);
                        assert(decode_many(rest@, (max - o) as nat) == (n + r1.0, seq![varint_value(rest@.take(n)) % word_modulus()] + r1.1));
                        assert(decode_many_safe(rest@.skip(n), (max - o - 1) as nat));
                        let all = decode_many(input@, max);
                        let rest0 = decode_many(rest@, (max - o) as nat);
                        assert(all.1[o as int] == rest0.1[0]);
                        assert forall|k: int| 0 <= k < r1.1.len() implies all.1[o + 1 + k] == r1.1[k] by {
                            assert(all.1[o + (k + 1)] == rest0.1[k + 1]);
                        }
                    }
                    output[o] = value;
                    i += input_consumed;
                    o += 1;
                },
                None => {
                    break ;
                },
            }
        }
        (i, o)
    }
}

pub trait Encoder<T> {
    /// The number that an input element stands for.
    spec fn value_of(t: T) -> nat;

    /// Encodes values from `input` into `output` while they fit; returns
    /// the number of values consumed and the number of bytes produced.
    fn encode(&self, input: &[T], output: &mut [u8]) -> (r: (usize, usize))
        ensures
            final(output)@.len() == old(output)@.len(),
            ({
                let e = encode_many(input@.map_values(|t: T| Self::value_of(t)), old(output)@.len() as int);
                &&& r.0 == e.0
                &&& r.1 == e.1.len()
                &&& final(output)@.take(r.1 as int) == e.1
            }),
    ;
}

/// Encoding values one after another into `cap` bytes while the next one
/// fits: the number of values encoded and the bytes.
pub open spec fn encode_many(vals: Seq<nat>, cap: int) -> (int, Seq<u8>)
    decreases vals.len(),
{
    if vals.len() == 0 {
        (0, seq![])
    } else {
        let e = varint_encoding(vals[0]);
        if e.len() > cap {
            (0, seq![])
        } else {
            let rest = encode_many(vals.drop_first(), cap - e.len());
            (1 + rest.0, e + rest.1)
        }
    }
}

/// Somewhere an encoder can put bytes, one at a time, until it has no
/// more room.
pub trait ByteSink {
    /// What the sink holds.
    type Model;

    spec fn model(&self) -> Self::Model;

    /// What a sink in `m` becomes when it takes `b`, or `None` when it has
    /// no room for it.
    spec fn spec_put(m: Self::Model, b: u8) -> Option<Self::Model>;

    /// Gives the sink `b`; returns `false`, leaving the sink as it was, when
    /// it has no room for it.
    fn put(&mut self, b: u8) -> (r: bool)
        ensures
            match Self::spec_put(old(self).model(), b) {
                Some(m) => r && final(self).model() == m,
                None => !r && final(self).model() == old(self).model(),
            },
    ;
}

/// Giving a sink in `m` the bytes `bytes` in order, up to the first one it
/// has no room for: the sink's model after, and whether every byte went in.
pub open spec fn put_all<S: ByteSink>(m: S::Model, bytes: Seq<u8>) -> (S::Model, bool)
    decreases bytes.len(),
{
    if bytes.len() == 0 {
        (m, true)
    } else {
        match S::spec_put(m, bytes[0]) {
            None => (m, false),
            Some(m2) => put_all::<S>(m2, bytes.drop_first()),
        }
    }
}

/// A vector takes every byte, at its end.
impl ByteSink for Vec<u8> {
    type Model = Seq<u8>;

    open spec fn model(&self) -> Seq<u8> {
        self@
    }

    open spec fn spec_put(m: Seq<u8>, b: u8) -> Option<Seq<u8>> {
        Some(m.push(b))
    }

    fn put(&mut self, b: u8) -> (r: bool) {
        self.push(b);
        true
    }
}

/// A vector that takes bytes at its end while it holds fewer than `room`.
pub struct BoundedVec {
    pub bytes: Vec<u8>,
    pub room: usize,
}

impl ByteSink for BoundedVec {
    type Model = (Seq<u8>, nat);

    open spec fn model(&self) -> (Seq<u8>, nat) {
        (self.bytes@, self.room as nat)
    }

    open spec fn spec_put(m: (Seq<u8>, nat), b: u8) -> Option<(Seq<u8>, nat)> {
        if m.0.len() < m.1 {
            Some((m.0.push(b), m.1))
        } else {
            None
        }
    }

    fn put(&mut self, b: u8) -> (r: bool) {
        if self.bytes.len() < self.room {
            self.bytes.push(b);
            true
        } else {
            false
        }
    }
}

/// Giving a bounded vector bytes appends as many as there is room for, and
/// all of them go in exactly when there is room for all.
pub proof fn lemma_put_all_bounded(a: Seq<u8>, room: nat, bytes: Seq<u8>)
    requires
        a.len() <= room,
    ensures
        put_all::<BoundedVec>((a, room), bytes) == (
            (
                a + bytes.take(
                    if bytes.len() <= room - a.len() {
                        bytes.len() as int
                    } else {
                        room - a.len()
                    },
                ),
                room,
            ),
            bytes.len() <= room - a.len(),
        ),
    decreases bytes.len(),
{
    if bytes.len() == 0 {
        assert(a + bytes.take(0) =~= a);
    } else if a.len() < room {
        lemma_put_all_bounded(a.push(bytes[0]), room, bytes.drop_first());
        let k = if bytes.len() <= room - a.len() {
            bytes.len() as int
        } else {
            room - a.len()
        };
        assert(a.push(bytes[0]) + bytes.drop_first().take(k - 1) =~= a + bytes.take(k));
    } else {
        assert(a + bytes.take(0) =~= a);
    }
}

/// Giving a vector bytes appends them all.
pub proof fn lemma_put_all_vec(m: Seq<u8>, bytes: Seq<u8>)
    ensures
        put_all::<Vec<u8>>(m, bytes) == (m + bytes, true),
    decreases bytes.len(),
{
    if bytes.len() == 0 {
        assert(m + bytes =~= m);
    } else {
        lemma_put_all_vec(m.push(bytes[0]), bytes.drop_first());
        assert(m.push(bytes[0]) + bytes.drop_first() =~= m + bytes);
    }
}

pub struct GenericEncoder {}

impl GenericEncoder {
    pub fn new() -> Self {
        Self {  }
    }

    /// Hands `output` the bytes of the encoding of `input`, one call of
    /// `put` per byte, in order; stops at the first byte that `output` has
    /// no room for and returns `None`, otherwise returns `Some(())`.
    pub fn encode_one_generic<S: ByteSink>(&self, input: usize, output: &mut S) -> (r: Option<()>)
        ensures
            (final(output).model(), r is Some) == put_all::<S>(
                old(output).model(),
                varint_encoding(input as nat),
            ),
    {
        let mut rest = input;
        loop
            invariant
                put_all::<S>(output.model(), varint_encoding(rest as nat)) == put_all::<S>(
                    old(output).model(),
                    varint_encoding(input as nat),
                ),
            decreases rest,
        {
            let ghost before = rest;
            let ghost m = output.model();
            let low: usize = rest & 127;
            rest = rest >> 7;
            assert(low == before % 128 && rest == before / 128) by (bit_vector)
                requires
                    low == before & 127usize,
                    rest == before >> 7,
            ;
            let this_byte: usize = if rest != 0 {
                low | 128
            } else {
                low
            };
            assert(rest != 0 ==> this_byte == low + 128) by (bit_vector)
                requires
                    rest != 0 ==> this_byte == low | 128usize,
                    low < 128,
            ;
            let ghost e = varint_encoding(before as nat);
            proof {
                if rest != 0 {
                    assert(e == seq![(before % 128 + 128) as u8] + varint_encoding(rest as nat));
                    assert(e.drop_first() =~= varint_encoding(rest as nat));
                } else {
                    assert(e == seq![before as u8]);
                    assert(e.drop_first() =~= Seq::<u8>::empty());
                }
                assert(e[0] == this_byte as u8);
            }
            proof {
                assert(e.len() > 0);
                assert(put_all::<S>(m, e) == match S::spec_put(m, e[0]) {
                    None => (m, false),
                    Some(m2) => put_all::<S>(m2, e.drop_first()),
                });
            }
            if !output.put(this_byte as u8) {
                assert(put_all::<S>(m, e) == (output.model(), false));
                return None;
            }
            if rest == 0 {
                assert(put_all::<S>(output.model(), e.drop_first()) == (output.model(), true));
                return Some(());
            }
        }
    }

    /// Writes the encoding of `input` at the start of `output` and returns
    /// its length; when it does not fit, fills `output` with its first bytes
    /// and returns `None`.
    pub fn encode_one(&self, input: usize, output: &mut [u8]) -> (r: Option<usize>)
        ensures
            final(output)@.len() == old(output)@.len(),
            varint_encoding(input as nat).len() <= old(output)@.len() ==> (r matches Some(n)
                && n == varint_encoding(input as nat).len() && final(output)@.take(
                varint_encoding(input as nat).len() as int,
            ) == varint_encoding(input as nat) && final(output)@.skip(n as int) == old(
                output,
            )@.skip(n as int)),
            varint_encoding(input as nat).len() > old(output)@.len() ==> r is None
                && final(output)@ == varint_encoding(input as nat).take(old(output)@.len() as int),
    {
        self.encode_one_at(input, output, 0)
    }

    fn encode_one_at(&self, input: usize, output: &mut [u8], start: usize) -> (r: Option<usize>)
        requires
            start <= old(output)@.len(),
        ensures
            ({
                let e = varint_encoding(input as nat);
                let cap = old(output)@.len() - start;
                &&& final(output)@.len() == old(output)@.len()
                &&& final(output)@.take(start as int) == old(output)@.take(start as int)
                &&& e.len() <= cap ==> (r matches Some(n) && n == e.len() && final(output)@.subrange(
                    start as int,
                    start + e.len(),
                ) == e && final(output)@.skip(start + e.len()) == old(output)@.skip(start + e.len()))
                &&& e.len() > cap ==> r is None && final(output)@.skip(start as int) == e.take(cap)
            }),
    {
        let mut sink = BoundedVec { bytes: Vec::new(), room: output.len() - start };
        let done = self.encode_one_generic(input, &mut sink);
        let ghost e = varint_encoding(input as nat);
        let ghost cap = (output@.len() - start) as nat;
        proof {
            lemma_put_all_bounded(Seq::empty(), cap, e);
            assert(Seq::<u8>::empty() + e.take(if e.len() <= cap { e.len() as int } else { cap as int }) =~= e.take(if e.len() <= cap { e.len() as int } else { cap as int }));
        }
        let bytes = sink.bytes;
        let n_out: usize = output.len();
        let mut o: usize = 0;
        while o < bytes.len()
            invariant
                n_out == output@.len(),
                bytes@ == e.take(if e.len() <= cap { e.len() as int } else { cap as int }),
                e == varint_encoding(input as nat),
                cap == old(output)@.len() - start,
                bytes@.len() <= cap,
                start <= output@.len(),
                output@.len() == old(output)@.len(),
                o <= bytes@.len(),
                output@.take(start as int) == old(output)@.take(start as int),
                output@.subrange(start as int, start + o) == bytes@.take(o as int),
                output@.skip(start + o) == old(output)@.skip(start + o),
            decreases bytes@.len() - o,
        {
            let ghost before = output@;
            assert(start + o < output@.len());
            output[start + o] = bytes[o];
            assert(output@.take(start as int) =~= before.take(start as int));
            assert(output@.subrange(start as int, start + o + 1) =~= bytes@.take(o + 1));
            assert forall|k: int| 0 <= k < output@.len() - (start + o + 1) implies #[trigger] output@.skip(
                start + o + 1,
            )[k] == old(output)@.skip(start + o + 1)[k] by {
                assert(before.skip(start + o)[k + 1] == old(output)@.skip(start + o)[k + 1]);
            }
            assert(output@.skip(start + o + 1) =~= old(output)@.skip(start + o + 1));
            o += 1;
        }
        assert(bytes@.take(o as int) =~= bytes@);
        match done {
            Some(()) => {
                assert(e.take(e.len() as int) =~= e);
                Some(o)
            },
            None => {
                assert(output@.skip(start as int) =~= output@.subrange(start as int, start + o));
                None
            },
        }
    }

    /// Appends the encoding of `input` to `output`.
    pub fn encode_one_vec(&self, input: usize, output: &mut Vec<u8>)
        ensures
            final(output)@ == old(output)@ + varint_encoding(input as nat),
    {
        proof {
            lemma_put_all_vec(output@, varint_encoding(input as nat));
        }
        self.encode_one_generic(input, output);
    }

    /// The length of the encoding of `input`.
    pub fn encode_length(&self, input: usize) -> (r: usize)
        ensures
            r == varint_encoding(input as nat).len(),
    {
        let mut input = input;
        let mut o: usize = 0;
        let ghost n0 = input as nat;
        proof {
            lemma_varint_encoding(input as u64);
        }
        loop
            invariant_except_break
                o + varint_encoding(input as nat).len() == varint_encoding(n0).len(),
                varint_encoding(n0).len() <= 10,
            ensures
                o == varint_encoding(n0).len(),
            decreases input,
        {
            let ghost before = input;
            input = input >> 7;
            assert(input == before / 128) by (bit_vector)
                requires
                    input == before >> 7,
            ;
            proof {
                lemma_encoding_general(before as nat);
                lemma_encoding_general(input as nat);
            }
            o += 1;
            if input == 0 {
                break ;
            }
        }
        o
    }
}

impl Encoder<usize> for GenericEncoder {
    open spec fn value_of(t: usize) -> nat {
        t as nat
    }

    fn encode(&self, input: &[usize], output: &mut [u8]) -> (r: (usize, usize)) {
        let mut i: usize = 0;
        let mut o: usize = 0;
        let ghost vals = input@.map_values(|t: usize| Self::value_of(t));
        let out_len = output.len();
        let ghost cap = output@.len() as int;
        assert(vals.skip(0) =~= vals);
        assert(output@.take(0) + encode_many(vals, cap).1 =~= encode_many(vals, cap).1);
        while i < input.len()
            invariant
                output@.len() == cap,
                cap == out_len,
                i <= input@.len(),
                o <= cap,
                vals == input@.map_values(|t: usize| Self::value_of(t)),
                ({
                    let all = encode_many(vals, cap);
                    let rest = encode_many(vals.skip(i as int), cap - o);
                    &&& all.0 == i + rest.0
                    &&& all.1 == output@.take(o as int) + rest.1
                }),
            ensures
                ({
                    let all = encode_many(vals, cap);
                    &&& all.0 == i
                    &&& all.1 == output@.take(o as int)
                }),
            decreases input@.len() - i,
        {
            let ghost before = output@;
            let ghost e = varint_encoding(input@[i as int] as nat);
            assert(vals.skip(i as int)[0] == input@[i as int] as nat);
            match self.encode_one_at(input[i], output, o) {
                Some(output_generated) => {
                    assert(vals.skip(i as int).drop_first() =~= vals.skip(i + 1));
                    assert(e.len() <= cap - o);
                    assert(output_generated == e.len());
                    assert(output@.subrange(o as int, o + e.len()) == e);
                    assert(output@.take(o as int) == before.take(o as int));
                    assert(output@.take(o + output_generated) =~= output@.take(o as int)
                        + output@.subrange(o as int, o + e.len()));
                    i += 1;
                    o += output_generated;
                },
                None => {
                    assert(output@.take(o as int) =~= before.take(o as int));
                    break ;
                },
            }
        }
        proof {
            if i == input@.len() {
                assert(vals.skip(i as int).len() == 0);
                assert(output@.take(o as int) + Seq::<u8>::empty() =~= output@.take(o as int));
            }
        }
        (i, o)
    }
}

} // verus!
