use vstd::prelude::*;
use vstd::arithmetic::div_mod::{
    lemma_add_mod_noop, lemma_div_decreases, lemma_fundamental_div_mod,
    lemma_mod_add_multiples_vanish, lemma_small_mod,
};

use crate::alphabet::{ascii_bytes, byte_chars, distinct_chars};

verus! {

/// One past the largest value the codec works on: arithmetic wraps at this
/// modulus during decoding.
pub open spec fn wrap_modulus() -> int {
    u128::MAX as int + 1
}

pub open spec fn wrap128(x: int) -> int {
    x % wrap_modulus()
}

/// The positional representation of `v` in base `alphabet.len()`, least
/// significant digit first: digit `v % base` is the alphabet character at
/// that index, and the remaining digits are those of `v / base`. Zero has no
/// digits at all.
pub open spec fn radix_encode(v: nat, alphabet: Seq<char>) -> Seq<char>
    decreases v,
        when alphabet.len() >= 2
        via radix_encode_decreases
{
    if v == 0 {
        Seq::empty()
    } else {
        seq![alphabet[(v % alphabet.len()) as int]] + radix_encode(v / alphabet.len(), alphabet)
    }
}

#[via_fn]
proof fn radix_encode_decreases(v: nat, alphabet: Seq<char>) {
    if v != 0 {
        lemma_div_decreases(v as int, alphabet.len() as int);
    }
}

/// The value a digit string stands for: a fold from the most significant
/// digit (the last one) down to the least significant, taking each step
/// modulo `wrap_modulus` so that decoding never overflows.
pub open spec fn radix_decode(s: Seq<char>, alphabet: Seq<char>) -> int
    decreases s.len(),
{
    if s.len() == 0 {
        0
    } else {
        wrap128(radix_decode(s.drop_first(), alphabet) * alphabet.len() + alphabet.index_of(s[0]))
    }
}

/// Every character of the digit string of `v` is an alphabet character.
pub proof fn lemma_radix_encode_in_alphabet(v: nat, alphabet: Seq<char>)
    requires
        alphabet.len() >= 2,
    ensures
        forall|k: int|
            0 <= k < radix_encode(v, alphabet).len() ==> alphabet.contains(
                #[trigger] radix_encode(v, alphabet)[k],
            ),
    decreases v,
{
    if v != 0 {
        lemma_div_decreases(v as int, alphabet.len() as int);
        lemma_radix_encode_in_alphabet(v / alphabet.len(), alphabet);
        let e = radix_encode(v, alphabet);
        let rest = radix_encode(v / alphabet.len(), alphabet);
        assert(e == seq![alphabet[(v % alphabet.len()) as int]] + rest);
        assert forall|k: int| 0 <= k < e.len() implies alphabet.contains(e[k]) by {
            if k == 0 {
                assert(e[k] == alphabet[(v % alphabet.len()) as int]);
                assert(alphabet.contains(alphabet[(v % alphabet.len()) as int]));
            } else {
                assert(e[k] == rest[k - 1]);
            }
        }
    }
}

/// With distinct alphabet characters, the index a digit character was drawn
/// from is the only index holding it.
pub proof fn lemma_index_of_digit(alphabet: Seq<char>, i: int)
    requires
        distinct_chars(alphabet),
        0 <= i < alphabet.len(),
    ensures
        alphabet.index_of(alphabet[i]) == i,
{
    assert(alphabet.contains(alphabet[i]));
    let j = alphabet.index_of(alphabet[i]);
    assert(0 <= j < alphabet.len() && alphabet[j] == alphabet[i]);
}

/// Decoding inverts encoding: the digits of any value within the wrapped
/// range fold back to exactly that value; and zero encodes to the empty
/// string.
pub proof fn lemma_radix_round_trip(v: nat, alphabet: Seq<char>)
    requires
        alphabet.len() >= 2,
        distinct_chars(alphabet),
        v < wrap_modulus(),
    ensures
        radix_decode(radix_encode(v, alphabet), alphabet) == v,
        radix_encode(0, alphabet) == Seq::<char>::empty(),
    decreases v,
{
    let b = alphabet.len() as int;
    if v != 0 {
        lemma_div_decreases(v as int, b);
        lemma_radix_round_trip(v / alphabet.len(), alphabet);
        let e = radix_encode(v, alphabet);
        let rest = radix_encode(v / alphabet.len(), alphabet);
        assert(e == seq![alphabet[(v % alphabet.len()) as int]] + rest);
        assert(e.drop_first() =~= rest);
        assert(e[0] == alphabet[(v % alphabet.len()) as int]);
        lemma_index_of_digit(alphabet, (v % alphabet.len()) as int);
        lemma_fundamental_div_mod(v as int, b);
        assert(radix_decode(e, alphabet) == wrap128((v / alphabet.len()) * b + (v % alphabet.len())));
        assert((v / alphabet.len()) * b + (v % alphabet.len()) == v) by {
            lemma_fundamental_div_mod(v as int, b);
        }
        lemma_small_mod(v, wrap_modulus() as nat);
    }
}

/// Relies on alloc's `String::from_utf8_lossy`: bytes that are valid ASCII
/// come back as the string of exactly those characters.
#[verifier::external_body]
pub(crate) fn ascii_to_string(bytes: &Vec<u8>) -> (r: String)
    requires
        ascii_bytes(bytes@),
    ensures
        r@ == byte_chars(bytes@),
{
    String::from_utf8_lossy(bytes).to_string()
}

/// The digits of `to_code` in the given alphabet, least significant first,
/// as raw bytes.
pub(crate) fn radix_digits(to_code: u128, alphabet: &[u8]) -> (r: Vec<u8>)
    requires
        2 <= alphabet@.len(),
    ensures
        byte_chars(r@) == radix_encode(to_code as nat, byte_chars(alphabet@)),
        forall|k: int| 0 <= k < r@.len() ==> alphabet@.contains(#[trigger] r@[k]),
{
    let ghost alpha = byte_chars(alphabet@);
    let base: u128 = alphabet.len() as u128;
    let mut cur: u128 = to_code;
    let mut accum: Vec<u8> = Vec::new();
    proof {
        assert(byte_chars(accum@) =~= Seq::<char>::empty());
    }
    while cur > 0
        invariant
            2 <= alphabet@.len(),
            base as int == alphabet@.len() as int,
            alpha == byte_chars(alphabet@),
            byte_chars(accum@) + radix_encode(cur as nat, alpha) == radix_encode(
                to_code as nat,
                alpha,
            ),
            forall|k: int| 0 <= k < accum@.len() ==> alphabet@.contains(#[trigger] accum@[k]),
        decreases cur,
    {
        let ghost prev = cur;
        let ghost prev_accum = accum@;
        let d: usize = (cur % base) as usize;
        accum.push(alphabet[d]);
        cur = cur / base;
        proof {
            lemma_div_decreases(prev as int, base as int);
            assert(radix_encode(prev as nat, alpha) == seq![alpha[(prev as nat % alpha.len()) as int]]
                + radix_encode(prev as nat / alpha.len(), alpha));
            assert(alpha[d as int] == alphabet@[d as int] as char);
            assert(byte_chars(accum@) =~= byte_chars(prev_accum).push(alphabet@[d as int] as char));
            assert(byte_chars(accum@) + radix_encode(cur as nat, alpha) =~= byte_chars(prev_accum)
                + radix_encode(prev as nat, alpha));
            assert(alphabet@.contains(alphabet@[d as int]));
        }
    }
    proof {
        assert(byte_chars(accum@) =~= byte_chars(accum@) + radix_encode(cur as nat, alpha));
    }
    accum
}

/// Writes `to_code` positionally in base `alphabet.len()`, least significant
/// digit first, the remainder at each step picking the alphabet character at
/// that index; the value zero comes out as the empty string.
pub fn encode_with_alphabet(to_code: u128, alphabet: &[u8]) -> (r: String)
    requires
        2 <= alphabet@.len(),
        ascii_bytes(alphabet@),
    ensures
        r@ == radix_encode(to_code as nat, byte_chars(alphabet@)),
{
    let digits = radix_digits(to_code, alphabet);
    proof {
        assert forall|k: int| 0 <= k < digits@.len() implies digits@[k] < 128 by {
            let w = choose|i: int| 0 <= i < alphabet@.len() && alphabet@[i] == digits@[k];
        }
    }
    ascii_to_string(&digits)
}

/// The index in `alphabet` of the byte `c`, which must occur there.
fn digit_value(c: u8, alphabet: &[u8]) -> (d: usize)
    requires
        distinct_chars(byte_chars(alphabet@)),
        alphabet@.contains(c),
    ensures
        d < alphabet@.len(),
        alphabet@[d as int] == c,
        byte_chars(alphabet@).index_of(c as char) == d,
{
    let ghost alpha = byte_chars(alphabet@);
    let mut j: usize = 0;
    while j < alphabet.len()
        invariant
            j <= alphabet@.len(),
            alphabet@.contains(c),
            distinct_chars(alpha),
            alpha == byte_chars(alphabet@),
            forall|k: int| 0 <= k < j ==> alphabet@[k] != c,
        decreases alphabet@.len() - j,
    {
        if alphabet[j] == c {
            proof {
                lemma_index_of_digit(alpha, j as int);
                assert(alpha[j as int] == c as char);
            }
            return j;
        }
        j += 1;
    }
    proof {
        let w = choose|i: int| 0 <= i < alphabet@.len() && alphabet@[i] == c;
        assert(false);
    }
    0
}

proof fn lemma_wrap_add_form(x: u128, y: u128)
    ensures
        wrap128(x + y) == if x + y > u128::MAX { x + y - wrap_modulus() } else { x + y as int },
{
    if x + y > u128::MAX {
        lemma_mod_add_multiples_vanish(x + y - wrap_modulus(), wrap_modulus());
        lemma_small_mod((x + y - wrap_modulus()) as nat, wrap_modulus() as nat);
    } else {
        lemma_small_mod((x + y) as nat, wrap_modulus() as nat);
    }
}

proof fn lemma_wrap_step(a: int, b: int, d: int)
    requires
        0 <= a,
        0 <= b,
        0 <= d < wrap_modulus(),
    ensures
        wrap128(wrap128(a * b) + d) == wrap128(a * b + d),
{
    lemma_add_mod_noop(a * b, d, wrap_modulus());
    lemma_small_mod(d as nat, wrap_modulus() as nat);
    assert(a * b >= 0) by (nonlinear_arith)
        requires 0 <= a && 0 <= b;
}

/// Folds the digit bytes from the most significant (the last) down to the
/// least significant, multiplying by the base and adding each digit's index,
/// wrapping silently at the width of `u128`.
pub fn decode_with_alphabet(to_decode: &[u8], alphabet: &[u8]) -> (r: u128)
    requires
        distinct_chars(byte_chars(alphabet@)),
        forall|i: int| 0 <= i < to_decode@.len() ==> alphabet@.contains(#[trigger] to_decode@[i]),
    ensures
        r as int == radix_decode(byte_chars(to_decode@), byte_chars(alphabet@)),
{
    let ghost alpha = byte_chars(alphabet@);
    let ghost s = byte_chars(to_decode@);
    let base: u128 = alphabet.len() as u128;
    let mut accum: u128 = 0;
    let mut i: usize = to_decode.len();
    proof {
        assert(s.skip(i as int) =~= Seq::<char>::empty());
    }
    while i > 0
        invariant
            i <= to_decode@.len(),
            base as int == alphabet@.len() as int,
            alpha == byte_chars(alphabet@),
            s == byte_chars(to_decode@),
            distinct_chars(alpha),
            forall|k: int| 0 <= k < to_decode@.len() ==> alphabet@.contains(#[trigger] to_decode@[k]),
            accum as int == radix_decode(s.skip(i as int), alpha),
        decreases i,
    {
        i = i - 1;
        let d = digit_value(to_decode[i], alphabet);
        let ghost prev = accum;
        accum = accum.wrapping_mul(base).wrapping_add(d as u128);
        proof {
            let tail = s.skip(i as int + 1);
            let cur = s.skip(i as int);
            assert(cur.len() > 0);
            assert(cur[0] == s[i as int]);
            assert(cur.drop_first() =~= tail);
            assert(s[i as int] == to_decode@[i as int] as char);
            assert(radix_decode(cur, alpha) == wrap128(
                radix_decode(tail, alpha) * alpha.len() + alpha.index_of(cur[0]),
            ));
            let m = prev.wrapping_mul(base);
            assert(m as int == wrap128(prev as int * base as int));
            lemma_wrap_add_form(m, d as u128);
            lemma_wrap_step(prev as int, base as int, d as int);
            assert(accum as int == wrap128(prev as int * base as int + d as int));
        }
    }
    proof {
        assert(s.skip(0) =~= s);
    }
    accum
}

} // verus!
