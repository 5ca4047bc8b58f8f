//! Gibbercode: a human-friendly identifier encoding. Two unsigned numbers
//! are written positionally over a consonant and a vowel alphabet, the two
//! digit strings are interleaved into pronounceable consonant-vowel-consonant
//! syllables, and the syllables are grouped into hyphenated words. Decoding
//! is total: it keeps only alphabet characters, in order, and reads each
//! class back as one number, so any surrounding noise is ignored.

use vstd::prelude::*;
use vstd::seq_lib::*;
use vstd::string::StrSliceExecFns;

pub mod alphabet;
pub mod format;
pub mod radix;

use crate::alphabet::{
    ascii_bytes, byte_chars, char_is_consonant, char_is_vowel, consonant_alphabet, consonants,
    is_consonant, is_vowel, lemma_alphabets_disjoint, vowel_alphabet, vowels,
};
use crate::format::{
    all_consonants, all_vowels, consonant_stream, gibber_chars, join_hyphen, lemma_filter_empty,
    lemma_gibber_streams, lemma_remove_hh_six, lemma_remove_hh_three, remove_hh, syllable,
    syllable_bytes, syllable_count, vowel_slot, vowel_stream, word, word_count, words,
};
use crate::radix::{
    ascii_to_string, decode_with_alphabet, lemma_radix_round_trip, radix_decode, radix_digits,
    radix_encode,
};

verus! {

/// Encodes two numbers as a gibbercode string: the consonant digits of
/// `major` and the vowel digits of `minor` are interleaved into syllables,
/// padded and trimmed, and the syllables are grouped pairwise into
/// hyphenated words.
pub fn encode(major: u128, minor: u128) -> (r: String)
    ensures
        r@ == gibber_chars(major, minor),
{
    let cons_alpha = consonant_alphabet();
    let vow_alpha = vowel_alphabet();
    let cons = radix_digits(major, cons_alpha.as_slice());
    let vows = radix_digits(minor, vow_alpha.as_slice());
    let ghost c = byte_chars(cons@);
    let ghost v = byte_chars(vows@);
    proof {
        lemma_alphabets_disjoint();
        assert forall|k: int| 0 <= k < cons@.len() implies is_consonant(#[trigger] c[k])
            && cons@[k] < 128 by {
            let w = choose|t: int| 0 <= t < cons_alpha@.len() && cons_alpha@[t] == cons@[k];
            assert(byte_chars(cons_alpha@)[w] == consonants()[w]);
            assert(c[k] == consonants()[w]);
            assert(consonants().contains(consonants()[w]));
        }
        assert forall|k: int| 0 <= k < vows@.len() implies is_vowel(#[trigger] v[k])
            && vows@[k] < 128 by {
            let w = choose|t: int| 0 <= t < vow_alpha@.len() && vow_alpha@[t] == vows@[k];
            assert(byte_chars(vow_alpha@)[w] == vowels()[w]);
            assert(v[k] == vowels()[w]);
            assert(vowels().contains(vowels()[w]));
        }
        assert(all_consonants(c));
        assert(all_vowels(v));
    }
    let clen = cons.len();
    let vlen = vows.len();
    let half_up = clen / 2 + clen % 2;
    let n = if half_up > vlen {
        half_up
    } else {
        vlen
    };
    proof {
        assert(half_up as int == (c.len() + 1) as int / 2);
        assert(n as int == syllable_count(c, v));
    }
    let n_words = n / 2 + n % 2;
    proof {
        assert(n_words as int == word_count(c, v));
    }
    let mut out: Vec<u8> = Vec::new();
    let mut j: usize = 0;
    proof {
        assert(words(c, v).take(0) =~= Seq::<Seq<char>>::empty());
        assert(byte_chars(out@) =~= join_hyphen(words(c, v).take(0)));
    }
    while j < n_words
        invariant
            j <= n_words,
            n_words as int == word_count(c, v),
            n as int == syllable_count(c, v),
            n_words as int == n as int / 2 + n as int % 2,
            c == byte_chars(cons@),
            v == byte_chars(vows@),
            all_consonants(c),
            all_vowels(v),
            ascii_bytes(cons@),
            ascii_bytes(vows@),
            ascii_bytes(out@),
            byte_chars(out@) == join_hyphen(words(c, v).take(j as int)),
        decreases n_words - j,
    {
        let ghost out0 = out@;
        if j > 0 {
            out.push('-' as u8);
        }
        let ghost out1 = out@;
        proof {
            assert(2 * (j as int) < n as int);
        }
        let (a0, b0, d0) = syllable_bytes(&cons, &vows, 2 * j);
        proof {
            lemma_alphabets_disjoint();
            assert(vowel_slot(v, 2 * (j as int)) != 'h');
            assert(vowel_slot(v, 2 * (j as int) + 1) != 'h');
        }
        if 2 * j + 1 < n {
            let (a1, b1, d1) = syllable_bytes(&cons, &vows, 2 * j + 1);
            if d0 == 'h' as u8 && a1 == 'h' as u8 {
                out.push(a0);
                out.push(b0);
                out.push(b1);
                out.push(d1);
            } else {
                out.push(a0);
                out.push(b0);
                out.push(d0);
                out.push(a1);
                out.push(b1);
                out.push(d1);
            }
            proof {
                let jj = j as int;
                let s6 = syllable(c, v, 2 * jj) + syllable(c, v, 2 * jj + 1);
                assert(s6 =~= seq![
                    a0 as char,
                    b0 as char,
                    d0 as char,
                    a1 as char,
                    b1 as char,
                    d1 as char,
                ]);
                assert(s6[1] != 'h' && s6[4] != 'h');
                lemma_remove_hh_six(s6);
                assert(word(c, v, jj) == remove_hh(s6));
                assert((d0 as char == 'h') <==> (d0 == 'h' as u8));
                assert((a1 as char == 'h') <==> (a1 == 'h' as u8));
                if d0 == 'h' as u8 && a1 == 'h' as u8 {
                    assert(word(c, v, jj) == seq![a0 as char, b0 as char, b1 as char, d1 as char]);
                    assert(byte_chars(out@) =~= byte_chars(out1) + word(c, v, jj));
                } else {
                    assert(word(c, v, jj) == s6);
                    assert(byte_chars(out@) =~= byte_chars(out1) + word(c, v, jj));
                }
            }
        } else {
            out.push(a0);
            out.push(b0);
            out.push(d0);
            proof {
                let jj = j as int;
                let s3 = syllable(c, v, 2 * jj);
                assert(s3 =~= seq![a0 as char, b0 as char, d0 as char]);
                assert(s3[1] != 'h');
                lemma_remove_hh_three(s3);
                assert(word(c, v, jj) == remove_hh(s3));
                assert(byte_chars(out@) =~= byte_chars(out1) + word(c, v, jj));
            }
        }
        j += 1;
        proof {
            let jj = j as int;
            let ws = words(c, v);
            assert(ws.take(jj).drop_last() =~= ws.take(jj - 1));
            assert(ws.take(jj).last() == ws[jj - 1]);
            assert(ws[jj - 1] == word(c, v, jj - 1));
            if jj == 1 {
                assert(byte_chars(out1) =~= Seq::<char>::empty());
                assert(join_hyphen(ws.take(1)) == ws[0]);
            } else {
                assert(byte_chars(out1) =~= byte_chars(out0).push('-'));
                assert(byte_chars(out1) =~= join_hyphen(ws.take(jj - 1)) + seq!['-']);
                assert(join_hyphen(ws.take(jj)) == join_hyphen(ws.take(jj - 1)) + seq!['-']
                    + ws[jj - 1]);
            }
            assert(byte_chars(out@) =~= join_hyphen(ws.take(jj)));
        }
    }
    proof {
        assert(words(c, v).take(n_words as int) =~= words(c, v));
    }
    ascii_to_string(&out)
}

/// Decodes a gibbercode string into two numbers. This never fails: every
/// character outside the two digit alphabets is ignored, and whatever
/// consonant and vowel digits remain are read back as the two values.
pub fn decode(gibber: &str) -> (r: (u128, u128))
    ensures
        r.0 as int == radix_decode(consonant_stream(gibber@), consonants()),
        r.1 as int == radix_decode(vowel_stream(gibber@), vowels()),
{
    let cons_alpha = consonant_alphabet();
    let vow_alpha = vowel_alphabet();
    let n = gibber.unicode_len();
    let mut cons: Vec<u8> = Vec::new();
    let mut vows: Vec<u8> = Vec::new();
    let mut i: usize = 0;
    proof {
        lemma_alphabets_disjoint();
        lemma_filter_empty(|x: char| is_consonant(x));
        lemma_filter_empty(|x: char| is_vowel(x));
        assert(gibber@.take(0) =~= Seq::<char>::empty());
        assert(byte_chars(cons@) =~= Seq::<char>::empty());
        assert(byte_chars(vows@) =~= Seq::<char>::empty());
    }
    while i < n
        invariant
            i <= n,
            n as int == gibber@.len(),
            byte_chars(cons_alpha@) == consonants(),
            byte_chars(vow_alpha@) == vowels(),
            byte_chars(cons@) == consonant_stream(gibber@.take(i as int)),
            byte_chars(vows@) == vowel_stream(gibber@.take(i as int)),
            forall|k: int| 0 <= k < cons@.len() ==> cons_alpha@.contains(#[trigger] cons@[k]),
            forall|k: int| 0 <= k < vows@.len() ==> vow_alpha@.contains(#[trigger] vows@[k]),
        decreases n - i,
    {
        broadcast use Seq::lemma_filter_push;

        let ch = gibber.get_char(i);
        let ghost cons0 = cons@;
        let ghost vows0 = vows@;
        proof {
            lemma_alphabets_disjoint();
            assert(gibber@.take(i as int + 1) =~= gibber@.take(i as int).push(ch));
        }
        if char_is_consonant(ch) {
            cons.push(ch as u8);
            proof {
                let w = choose|t: int| 0 <= t < consonants().len() && consonants()[t] == ch;
                assert(byte_chars(cons_alpha@)[w] == ch);
                assert(cons_alpha@[w] == ch as u8);
                assert(cons_alpha@.contains(ch as u8));
                assert((ch as u8) as char == ch);
                assert(byte_chars(cons@) =~= byte_chars(cons0).push(ch));
            }
        } else if char_is_vowel(ch) {
            vows.push(ch as u8);
            proof {
                let w = choose|t: int| 0 <= t < vowels().len() && vowels()[t] == ch;
                assert(byte_chars(vow_alpha@)[w] == ch);
                assert(vow_alpha@[w] == ch as u8);
                assert(vow_alpha@.contains(ch as u8));
                assert((ch as u8) as char == ch);
                assert(byte_chars(vows@) =~= byte_chars(vows0).push(ch));
            }
        }
        i += 1;
    }
    proof {
        lemma_alphabets_disjoint();
        assert(gibber@.take(n as int) =~= gibber@);
    }
    let major = decode_with_alphabet(cons.as_slice(), cons_alpha.as_slice());
    let minor = decode_with_alphabet(vows.as_slice(), vow_alpha.as_slice());
    (major, minor)
}

proof fn lemma_consonant_round(v: u128)
    ensures
        radix_decode(radix_encode(v as nat, consonants()), consonants()) == v as int,
{
    lemma_alphabets_disjoint();
    lemma_radix_round_trip(v as nat, consonants());
}

proof fn lemma_vowel_round(v: u128)
    ensures
        radix_decode(radix_encode(v as nat, vowels()), vowels()) == v as int,
{
    lemma_alphabets_disjoint();
    lemma_radix_round_trip(v as nat, vowels());
}

/// `s` holds no digit of either alphabet.
pub open spec fn is_noise(s: Seq<char>) -> bool {
    forall|i: int| 0 <= i < s.len() ==> !is_consonant(#[trigger] s[i]) && !is_vowel(s[i])
}

/// `t` interleaves `s` with `n`: it holds the characters of both, each in
/// the order it had there.
pub open spec fn is_interleaving(t: Seq<char>, s: Seq<char>, n: Seq<char>) -> bool
    decreases t.len(),
{
    if t.len() == 0 {
        s.len() == 0 && n.len() == 0
    } else {
        (s.len() > 0 && t[0] == s[0] && is_interleaving(t.drop_first(), s.drop_first(), n)) || (
        n.len() > 0 && t[0] == n[0] && is_interleaving(t.drop_first(), s, n.drop_first()))
    }
}

/// Noise law: scattering characters from outside both alphabets through a
/// string changes neither digit stream, so decoding sees the same values.
pub proof fn lemma_decode_noise(t: Seq<char>, s: Seq<char>, noise: Seq<char>)
    requires
        is_noise(noise),
        is_interleaving(t, s, noise),
    ensures
        consonant_stream(t) == consonant_stream(s),
        vowel_stream(t) == vowel_stream(s),
        radix_decode(consonant_stream(t), consonants()) == radix_decode(
            consonant_stream(s),
            consonants(),
        ),
        radix_decode(vowel_stream(t), vowels()) == radix_decode(vowel_stream(s), vowels()),
    decreases t.len(),
{
    broadcast use Seq::lemma_filter_prepend;

    if t.len() == 0 {
        assert(t =~= s);
    } else if s.len() > 0 && t[0] == s[0] && is_interleaving(t.drop_first(), s.drop_first(), noise) {
        lemma_decode_noise(t.drop_first(), s.drop_first(), noise);
        assert(t =~= seq![t[0]] + t.drop_first());
        assert(s =~= seq![s[0]] + s.drop_first());
        assert(consonant_stream(t) == consonant_stream(s));
        assert(vowel_stream(t) == vowel_stream(s));
    } else {
        assert(noise.len() > 0 && t[0] == noise[0] && is_interleaving(
            t.drop_first(),
            s,
            noise.drop_first(),
        ));
        assert(is_noise(noise.drop_first())) by {
            assert(forall|i: int|
                0 <= i < noise.drop_first().len() ==> noise.drop_first()[i] == noise[i + 1]);
        }
        lemma_decode_noise(t.drop_first(), s, noise.drop_first());
        assert(t =~= seq![t[0]] + t.drop_first());
        assert(!is_consonant(t[0]) && !is_vowel(t[0]));
        assert(consonant_stream(t) == consonant_stream(t.drop_first()));
        assert(vowel_stream(t) == vowel_stream(t.drop_first()));
    }
}

/// Round-trip law: decoding an encoded pair gives the pair back, for every
/// representable `major` and `minor`.
pub proof fn lemma_round_trip(major: u128, minor: u128)
    ensures
        radix_decode(consonant_stream(gibber_chars(major, minor)), consonants()) == major as int,
        radix_decode(vowel_stream(gibber_chars(major, minor)), vowels()) == minor as int,
{
    lemma_gibber_streams(major, minor);
    lemma_consonant_round(major);
    lemma_vowel_round(minor);
}

} // verus!
