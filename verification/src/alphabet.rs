use vstd::prelude::*;

verus! {

/// All characters of `s` are pairwise distinct, so each one names a unique
/// digit position.
pub open spec fn distinct_chars(s: Seq<char>) -> bool {
    forall|i: int, j: int| 0 <= i < j < s.len() ==> s[i] != s[j]
}

/// The consonant digit alphabet: base 17.
pub open spec fn consonants() -> Seq<char> {
    seq!['k', 'g', 's', 'z', 't', 'd', 'n', 'p', 'b', 'm', 'j', 'r', 'l', 'w', 'v', 'x', 'q']
}

/// The vowel digit alphabet: base 5.
pub open spec fn vowels() -> Seq<char> {
    seq!['a', 'i', 'o', 'u', 'y']
}

pub open spec fn is_consonant(c: char) -> bool {
    consonants().contains(c)
}

pub open spec fn is_vowel(c: char) -> bool {
    vowels().contains(c)
}

/// The bytes of a buffer read as the characters they stand for in ASCII.
pub open spec fn byte_chars(s: Seq<u8>) -> Seq<char> {
    s.map_values(|b: u8| b as char)
}

pub open spec fn ascii_bytes(s: Seq<u8>) -> bool {
    forall|i: int| 0 <= i < s.len() ==> s[i] < 128
}

/// The two digit alphabets are disjoint from each other, and neither holds
/// the pad characters 'h' and 'e' nor the hyphen separator; each is a set of
/// distinct ASCII characters.
pub proof fn lemma_alphabets_disjoint()
    ensures
        forall|c: char| !(is_consonant(c) && is_vowel(c)),
        !is_consonant('h') && !is_vowel('h'),
        !is_consonant('e') && !is_vowel('e'),
        !is_consonant('-') && !is_vowel('-'),
        distinct_chars(consonants()),
        distinct_chars(vowels()),
        forall|c: char| is_consonant(c) ==> (c as u32) < 128,
        forall|c: char| is_vowel(c) ==> (c as u32) < 128,
{
    assert forall|c: char| is_consonant(c) implies !is_vowel(c) && (c as u32) < 128 by {
        let i = choose|i: int| 0 <= i < consonants().len() && consonants()[i] == c;
        assert(consonants()[i] == c);
    }
    assert forall|c: char| is_vowel(c) implies (c as u32) < 128 by {
        let i = choose|i: int| 0 <= i < vowels().len() && vowels()[i] == c;
        assert(vowels()[i] == c);
    }
}

/// The consonant alphabet as ASCII bytes, for running the radix codec.
pub fn consonant_alphabet() -> (r: Vec<u8>)
    ensures
        byte_chars(r@) == consonants(),
        ascii_bytes(r@),
        r@.len() == 17,
{
    let r: Vec<u8> = vec![
        'k' as u8, 'g' as u8, 's' as u8, 'z' as u8, 't' as u8, 'd' as u8, 'n' as u8, 'p' as u8,
        'b' as u8, 'm' as u8, 'j' as u8, 'r' as u8, 'l' as u8, 'w' as u8, 'v' as u8, 'x' as u8,
        'q' as u8,
    ];
    proof {
        assert(byte_chars(r@) =~= consonants());
    }
    r
}

/// The vowel alphabet as ASCII bytes, for running the radix codec.
pub fn vowel_alphabet() -> (r: Vec<u8>)
    ensures
        byte_chars(r@) == vowels(),
        ascii_bytes(r@),
        r@.len() == 5,
{
    let r: Vec<u8> = vec!['a' as u8, 'i' as u8, 'o' as u8, 'u' as u8, 'y' as u8];
    proof {
        assert(byte_chars(r@) =~= vowels());
    }
    r
}

/// Whether `c` is a digit of the consonant alphabet.
pub fn char_is_consonant(c: char) -> (r: bool)
    ensures
        r == is_consonant(c),
{
    let r = match c {
        'k' | 'g' | 's' | 'z' | 't' | 'd' | 'n' | 'p' | 'b' | 'm' | 'j' | 'r' | 'l' | 'w' | 'v'
        | 'x' | 'q' => true,
        _ => false,
    };
    proof {
        if r {
            assert(is_consonant(c));
        } else {
            assert forall|i: int| 0 <= i < consonants().len() implies consonants()[i] != c by {
                assert(consonants()[i] != c);
            }
        }
    }
    r
}

/// Whether `c` is a digit of the vowel alphabet.
pub fn char_is_vowel(c: char) -> (r: bool)
    ensures
        r == is_vowel(c),
{
    let r = match c {
        'a' | 'i' | 'o' | 'u' | 'y' => true,
        _ => false,
    };
    proof {
        if r {
            assert(is_vowel(c));
        } else {
            assert forall|i: int| 0 <= i < vowels().len() implies vowels()[i] != c by {
                assert(vowels()[i] != c);
            }
        }
    }
    r
}

} // verus!
