use vstd::prelude::*;
use vstd::math::{max, min};
use vstd::seq_lib::*;

use crate::alphabet::{consonants, is_consonant, is_vowel, vowels};
use crate::radix::radix_encode;

verus! {

/// The consonant at padded position `i`: a real digit while any remain, the
/// pad character 'h' beyond them.
pub open spec fn cons_slot(c: Seq<char>, i: int) -> char {
    if 0 <= i < c.len() {
        c[i]
    } else {
        'h'
    }
}

/// The vowel at padded position `i`: a real digit while any remain, the pad
/// character 'e' beyond them.
pub open spec fn vowel_slot(v: Seq<char>, i: int) -> char {
    if 0 <= i < v.len() {
        v[i]
    } else {
        'e'
    }
}

/// Syllable `i`: consonant, vowel, consonant, walking the padded consonant
/// digits two at a time in lock-step with one padded vowel digit.
pub open spec fn syllable(c: Seq<char>, v: Seq<char>, i: int) -> Seq<char> {
    seq![cons_slot(c, 2 * i), vowel_slot(v, i), cons_slot(c, 2 * i + 1)]
}

/// How many syllables come out before the first fully padded syllable
/// "heh", which terminates the walk and is dropped: syllable `i` still holds
/// a real digit exactly while `2i < c.len()` or `i < v.len()`.
pub open spec fn syllable_count(c: Seq<char>, v: Seq<char>) -> int {
    max((c.len() + 1) as int / 2, v.len() as int)
}

/// All characters of `s` are consonant digits.
pub open spec fn all_consonants(s: Seq<char>) -> bool {
    forall|k: int| 0 <= k < s.len() ==> is_consonant(#[trigger] s[k])
}

/// All characters of `s` are vowel digits.
pub open spec fn all_vowels(s: Seq<char>) -> bool {
    forall|k: int| 0 <= k < s.len() ==> is_vowel(#[trigger] s[k])
}

/// The sentinel rule behind `syllable_count`: every earlier syllable differs
/// from "heh", and the one at the count is exactly "heh".
pub proof fn lemma_sentinel(c: Seq<char>, v: Seq<char>, i: int)
    requires
        all_consonants(c),
        all_vowels(v),
        0 <= i,
    ensures
        i < syllable_count(c, v) ==> syllable(c, v, i) != seq!['h', 'e', 'h'],
        i >= syllable_count(c, v) ==> syllable(c, v, i) == seq!['h', 'e', 'h'],
{
    crate::alphabet::lemma_alphabets_disjoint();
    let n = syllable_count(c, v);
    if i < n {
        if 2 * i < c.len() {
            assert(is_consonant(c[2 * i]));
            assert(syllable(c, v, i)[0] == c[2 * i]);
            assert(c[2 * i] != 'h');
        } else if i < v.len() {
            assert(is_vowel(v[i]));
            assert(syllable(c, v, i)[1] == v[i]);
            assert(v[i] != 'e');
        }
    } else {
        assert(2 * i >= c.len() && i >= v.len());
        assert(syllable(c, v, i) =~= seq!['h', 'e', 'h']);
    }
}

/// Removes every occurrence of the substring "hh", scanning left to right.
pub open spec fn remove_hh(s: Seq<char>) -> Seq<char>
    decreases s.len(),
{
    if s.len() < 2 {
        s
    } else if s[0] == 'h' && s[1] == 'h' {
        remove_hh(s.skip(2))
    } else {
        seq![s[0]] + remove_hh(s.skip(1))
    }
}

/// Word `j`: the pair of syllables `2j` and `2j + 1` (or the lone final
/// syllable) joined, with the internal padding artifact "hh" removed.
pub open spec fn word(c: Seq<char>, v: Seq<char>, j: int) -> Seq<char> {
    if 2 * j + 1 < syllable_count(c, v) {
        remove_hh(syllable(c, v, 2 * j) + syllable(c, v, 2 * j + 1))
    } else {
        remove_hh(syllable(c, v, 2 * j))
    }
}

/// How many words the surviving syllables form, two syllables to a word.
pub open spec fn word_count(c: Seq<char>, v: Seq<char>) -> int {
    (syllable_count(c, v) + 1) / 2
}

pub open spec fn words(c: Seq<char>, v: Seq<char>) -> Seq<Seq<char>> {
    Seq::new(word_count(c, v) as nat, |j: int| word(c, v, j))
}

/// The words joined with a literal hyphen between each adjacent pair.
pub open spec fn join_hyphen(ws: Seq<Seq<char>>) -> Seq<char>
    decreases ws.len(),
{
    if ws.len() == 0 {
        Seq::empty()
    } else if ws.len() == 1 {
        ws[0]
    } else {
        join_hyphen(ws.drop_last()) + seq!['-'] + ws.last()
    }
}

/// The full gibbercode string for a pair of values, as a character sequence.
pub open spec fn gibber_chars(major: u128, minor: u128) -> Seq<char> {
    join_hyphen(
        words(radix_encode(major as nat, consonants()), radix_encode(minor as nat, vowels())),
    )
}

/// The consonant digits scattered through `s`, in order.
pub open spec fn consonant_stream(s: Seq<char>) -> Seq<char> {
    s.filter(|c: char| is_consonant(c))
}

/// The vowel digits scattered through `s`, in order.
pub open spec fn vowel_stream(s: Seq<char>) -> Seq<char> {
    s.filter(|c: char| is_vowel(c))
}

pub(crate) proof fn lemma_filter_empty(pred: spec_fn(char) -> bool)
    ensures
        Seq::<char>::empty().filter(pred) == Seq::<char>::empty(),
{
    reveal_with_fuel(Seq::filter, 2);
    assert(Seq::<char>::empty().filter(pred) =~= Seq::<char>::empty());
}

proof fn lemma_filter_singleton(x: char, pred: spec_fn(char) -> bool)
    ensures
        seq![x].filter(pred) == if pred(x) {
            seq![x]
        } else {
            Seq::<char>::empty()
        },
{
    reveal_with_fuel(Seq::filter, 3);
    let s = seq![x];
    assert(s.drop_last() =~= Seq::<char>::empty());
    lemma_filter_empty(pred);
    assert(s.last() == x);
    if pred(x) {
        assert(s.filter(pred) =~= seq![x]);
    } else {
        assert(s.filter(pred) =~= Seq::<char>::empty());
    }
}

proof fn lemma_seq3_filter(a: char, b: char, d: char, pred: spec_fn(char) -> bool)
    ensures
        seq![a, b, d].filter(pred) == (if pred(a) {
            seq![a]
        } else {
            Seq::<char>::empty()
        }) + (if pred(b) {
            seq![b]
        } else {
            Seq::<char>::empty()
        }) + (if pred(d) {
            seq![d]
        } else {
            Seq::<char>::empty()
        }),
{
    let s1 = seq![a];
    let s2 = seq![b];
    let s3 = seq![d];
    assert(seq![a, b, d] =~= s1 + s2 + s3);
    Seq::filter_distributes_over_add(s1 + s2, s3, pred);
    Seq::filter_distributes_over_add(s1, s2, pred);
    lemma_filter_singleton(a, pred);
    lemma_filter_singleton(b, pred);
    lemma_filter_singleton(d, pred);
}

/// What one syllable contributes to each digit stream: its real consonant
/// digits in order, and its vowel digit if it has one; pad characters and
/// digits of the other class contribute nothing.
proof fn lemma_syllable_streams(c: Seq<char>, v: Seq<char>, i: int)
    requires
        all_consonants(c),
        all_vowels(v),
        0 <= i,
    ensures
        consonant_stream(syllable(c, v, i)) == c.subrange(
            min(2 * i, c.len() as int),
            min(2 * i + 2, c.len() as int),
        ),
        vowel_stream(syllable(c, v, i)) == if i < v.len() {
            seq![v[i]]
        } else {
            Seq::<char>::empty()
        },
{
    crate::alphabet::lemma_alphabets_disjoint();
    let a = cons_slot(c, 2 * i);
    let b = vowel_slot(v, i);
    let d = cons_slot(c, 2 * i + 1);
    lemma_seq3_filter(a, b, d, |x: char| is_consonant(x));
    lemma_seq3_filter(a, b, d, |x: char| is_vowel(x));
    let clen = c.len() as int;
    if 2 * i + 1 < clen {
        assert(consonant_stream(syllable(c, v, i)) =~= c.subrange(2 * i, 2 * i + 2));
    } else if 2 * i < clen {
        assert(consonant_stream(syllable(c, v, i)) =~= c.subrange(2 * i, clen));
    } else {
        assert(consonant_stream(syllable(c, v, i)) =~= c.subrange(clen, clen));
    }
    if i < v.len() {
        assert(vowel_stream(syllable(c, v, i)) =~= seq![v[i]]);
    } else {
        assert(vowel_stream(syllable(c, v, i)) =~= Seq::<char>::empty());
    }
}

/// The first `j` syllables concatenated.
pub open spec fn syllables_upto(c: Seq<char>, v: Seq<char>, j: int) -> Seq<char>
    decreases j,
{
    if j <= 0 {
        Seq::empty()
    } else {
        syllables_upto(c, v, j - 1) + syllable(c, v, j - 1)
    }
}

proof fn lemma_syllables_upto_streams(c: Seq<char>, v: Seq<char>, j: int)
    requires
        all_consonants(c),
        all_vowels(v),
        0 <= j,
    ensures
        consonant_stream(syllables_upto(c, v, j)) == c.take(min(2 * j, c.len() as int)),
        vowel_stream(syllables_upto(c, v, j)) == v.take(min(j, v.len() as int)),
    decreases j,
{
    let clen = c.len() as int;
    let vlen = v.len() as int;
    if j == 0 {
        lemma_filter_empty(|x: char| is_consonant(x));
        lemma_filter_empty(|x: char| is_vowel(x));
        assert(consonant_stream(syllables_upto(c, v, 0)) =~= c.take(min(0, clen)));
        assert(vowel_stream(syllables_upto(c, v, 0)) =~= v.take(min(0, vlen)));
    } else {
        lemma_syllables_upto_streams(c, v, j - 1);
        lemma_syllable_streams(c, v, j - 1);
        Seq::filter_distributes_over_add(
            syllables_upto(c, v, j - 1),
            syllable(c, v, j - 1),
            |x: char| is_consonant(x),
        );
        Seq::filter_distributes_over_add(
            syllables_upto(c, v, j - 1),
            syllable(c, v, j - 1),
            |x: char| is_vowel(x),
        );
        assert(consonant_stream(syllables_upto(c, v, j)) =~= c.take(min(2 * j, clen)));
        assert(vowel_stream(syllables_upto(c, v, j)) =~= v.take(min(j, vlen)));
    }
}

/// Removing the "hh" padding artifact never touches a digit character:
/// 'h' belongs to neither alphabet.
proof fn lemma_remove_hh_streams(s: Seq<char>)
    ensures
        consonant_stream(remove_hh(s)) == consonant_stream(s),
        vowel_stream(remove_hh(s)) == vowel_stream(s),
    decreases s.len(),
{
    crate::alphabet::lemma_alphabets_disjoint();
    if s.len() < 2 {
    } else if s[0] == 'h' && s[1] == 'h' {
        lemma_remove_hh_streams(s.skip(2));
        assert(s =~= seq![s[0], s[1]] + s.skip(2));
        assert(seq![s[0], s[1]] =~= seq![s[0]] + seq![s[1]]);
        Seq::filter_distributes_over_add(seq![s[0], s[1]], s.skip(2), |x: char| is_consonant(x));
        Seq::filter_distributes_over_add(seq![s[0], s[1]], s.skip(2), |x: char| is_vowel(x));
        Seq::filter_distributes_over_add(seq![s[0]], seq![s[1]], |x: char| is_consonant(x));
        Seq::filter_distributes_over_add(seq![s[0]], seq![s[1]], |x: char| is_vowel(x));
        lemma_filter_singleton(s[0], |x: char| is_consonant(x));
        lemma_filter_singleton(s[0], |x: char| is_vowel(x));
        lemma_filter_singleton(s[1], |x: char| is_consonant(x));
        lemma_filter_singleton(s[1], |x: char| is_vowel(x));
        assert(consonant_stream(s) =~= consonant_stream(remove_hh(s)));
        assert(vowel_stream(s) =~= vowel_stream(remove_hh(s)));
    } else {
        lemma_remove_hh_streams(s.skip(1));
        assert(s =~= seq![s[0]] + s.skip(1));
        Seq::filter_distributes_over_add(seq![s[0]], s.skip(1), |x: char| is_consonant(x));
        Seq::filter_distributes_over_add(seq![s[0]], s.skip(1), |x: char| is_vowel(x));
        Seq::filter_distributes_over_add(
            seq![s[0]],
            remove_hh(s.skip(1)),
            |x: char| is_consonant(x),
        );
        Seq::filter_distributes_over_add(seq![s[0]], remove_hh(s.skip(1)), |x: char| is_vowel(x));
    }
}

/// What the first `j` words, joined with hyphens, contribute to each digit
/// stream: exactly what their syllables do, the hyphens contributing
/// nothing.
proof fn lemma_join_words_streams(c: Seq<char>, v: Seq<char>, j: int)
    requires
        all_consonants(c),
        all_vowels(v),
        0 <= j <= word_count(c, v),
    ensures
        consonant_stream(join_hyphen(words(c, v).take(j))) == consonant_stream(
            syllables_upto(c, v, min(2 * j, syllable_count(c, v))),
        ),
        vowel_stream(join_hyphen(words(c, v).take(j))) == vowel_stream(
            syllables_upto(c, v, min(2 * j, syllable_count(c, v))),
        ),
    decreases j,
{
    crate::alphabet::lemma_alphabets_disjoint();
    let n = syllable_count(c, v);
    let ws = words(c, v);
    if j == 0 {
        assert(ws.take(0) =~= Seq::<Seq<char>>::empty());
    } else {
        lemma_join_words_streams(c, v, j - 1);
        let prev = ws.take(j - 1);
        let curw = ws[j - 1];
        assert(ws.take(j).drop_last() =~= prev);
        assert(ws.take(j).last() == curw);
        assert(curw == word(c, v, j - 1));
        let m_prev = min(2 * (j - 1), n);
        let m_cur = min(2 * j, n);
        assert(2 * (j - 1) < n);
        // the current word's streams are those of its one or two syllables
        if 2 * (j - 1) + 1 < n {
            lemma_remove_hh_streams(syllable(c, v, 2 * (j - 1)) + syllable(c, v, 2 * (j - 1) + 1));
            Seq::filter_distributes_over_add(
                syllable(c, v, 2 * (j - 1)),
                syllable(c, v, 2 * (j - 1) + 1),
                |x: char| is_consonant(x),
            );
            Seq::filter_distributes_over_add(
                syllable(c, v, 2 * (j - 1)),
                syllable(c, v, 2 * (j - 1) + 1),
                |x: char| is_vowel(x),
            );
            assert(m_cur == 2 * (j - 1) + 2 || m_cur == n);
            assert(syllables_upto(c, v, m_cur) == syllables_upto(c, v, m_cur - 1) + syllable(
                c,
                v,
                m_cur - 1,
            ));
            assert(syllables_upto(c, v, m_cur - 1) == syllables_upto(c, v, m_cur - 2) + syllable(
                c,
                v,
                m_cur - 2,
            ));
            Seq::filter_distributes_over_add(
                syllables_upto(c, v, m_cur - 1),
                syllable(c, v, m_cur - 1),
                |x: char| is_consonant(x),
            );
            Seq::filter_distributes_over_add(
                syllables_upto(c, v, m_cur - 1),
                syllable(c, v, m_cur - 1),
                |x: char| is_vowel(x),
            );
            Seq::filter_distributes_over_add(
                syllables_upto(c, v, m_cur - 2),
                syllable(c, v, m_cur - 2),
                |x: char| is_consonant(x),
            );
            Seq::filter_distributes_over_add(
                syllables_upto(c, v, m_cur - 2),
                syllable(c, v, m_cur - 2),
                |x: char| is_vowel(x),
            );
        } else {
            lemma_remove_hh_streams(syllable(c, v, 2 * (j - 1)));
            assert(m_cur == 2 * (j - 1) + 1);
            assert(syllables_upto(c, v, m_cur) == syllables_upto(c, v, m_cur - 1) + syllable(
                c,
                v,
                m_cur - 1,
            ));
            Seq::filter_distributes_over_add(
                syllables_upto(c, v, m_cur - 1),
                syllable(c, v, m_cur - 1),
                |x: char| is_consonant(x),
            );
            Seq::filter_distributes_over_add(
                syllables_upto(c, v, m_cur - 1),
                syllable(c, v, m_cur - 1),
                |x: char| is_vowel(x),
            );
        }
        assert(m_prev == m_cur - 1 || m_prev == m_cur - 2);
        // the join either starts with this word or appends it after a hyphen
        if j == 1 {
            assert(join_hyphen(ws.take(1)) == curw);
        } else {
            assert(join_hyphen(ws.take(j)) == join_hyphen(prev) + seq!['-'] + curw);
            Seq::filter_distributes_over_add(
                join_hyphen(prev) + seq!['-'],
                curw,
                |x: char| is_consonant(x),
            );
            Seq::filter_distributes_over_add(
                join_hyphen(prev) + seq!['-'],
                curw,
                |x: char| is_vowel(x),
            );
            Seq::filter_distributes_over_add(
                join_hyphen(prev),
                seq!['-'],
                |x: char| is_consonant(x),
            );
            Seq::filter_distributes_over_add(join_hyphen(prev), seq!['-'], |x: char| is_vowel(x));
            lemma_filter_singleton('-', |x: char| is_consonant(x));
            lemma_filter_singleton('-', |x: char| is_vowel(x));
            assert(consonant_stream(join_hyphen(ws.take(j))) =~= consonant_stream(
                join_hyphen(prev),
            ) + consonant_stream(curw));
            assert(vowel_stream(join_hyphen(ws.take(j))) =~= vowel_stream(join_hyphen(prev))
                + vowel_stream(curw));
        }
    }
}

/// A lone syllable has no adjacent consonant pair, so "hh" removal leaves
/// it alone: its middle character is a vowel slot and never 'h'.
pub proof fn lemma_remove_hh_three(s: Seq<char>)
    requires
        s.len() == 3,
        s[1] != 'h',
    ensures
        remove_hh(s) == s,
{
    let t1 = s.skip(1);
    assert(t1 =~= seq![s[1], s[2]]);
    assert(remove_hh(s) == seq![s[0]] + remove_hh(t1));
    let t2 = t1.skip(1);
    assert(t2 =~= seq![s[2]]);
    assert(remove_hh(t1) == seq![s[1]] + remove_hh(t2));
    assert(remove_hh(t2) == t2);
    assert(remove_hh(s) =~= s);
}

/// In a two-syllable word the only place "hh" can occur is where the first
/// syllable's trailing consonant meets the second one's leading consonant:
/// the vowel slots on either side are never 'h'.
pub proof fn lemma_remove_hh_six(s: Seq<char>)
    requires
        s.len() == 6,
        s[1] != 'h',
        s[4] != 'h',
    ensures
        remove_hh(s) == if s[2] == 'h' && s[3] == 'h' {
            seq![s[0], s[1], s[4], s[5]]
        } else {
            s
        },
{
    let t1 = s.skip(1);
    let t2 = s.skip(2);
    let t3 = s.skip(3);
    let t4 = s.skip(4);
    let t5 = s.skip(5);
    assert(t1 =~= seq![s[1], s[2], s[3], s[4], s[5]]);
    assert(t2 =~= seq![s[2], s[3], s[4], s[5]]);
    assert(t3 =~= seq![s[3], s[4], s[5]]);
    assert(t4 =~= seq![s[4], s[5]]);
    assert(t5 =~= seq![s[5]]);
    assert(t1.skip(1) =~= t2);
    assert(t2.skip(1) =~= t3);
    assert(t2.skip(2) =~= t4);
    assert(t3.skip(1) =~= t4);
    assert(t4.skip(1) =~= t5);
    assert(remove_hh(s) == seq![s[0]] + remove_hh(t1));
    assert(remove_hh(t1) == seq![s[1]] + remove_hh(t2));
    assert(remove_hh(t4) == seq![s[4]] + remove_hh(t5));
    assert(remove_hh(t5) == t5);
    if s[2] == 'h' && s[3] == 'h' {
        assert(remove_hh(t2) == remove_hh(t4));
        assert(remove_hh(s) =~= seq![s[0], s[1], s[4], s[5]]);
    } else {
        assert(remove_hh(t2) == seq![s[2]] + remove_hh(t3));
        assert(remove_hh(t3) == seq![s[3]] + remove_hh(t4));
        assert(remove_hh(s) =~= s);
    }
}

/// The three characters of syllable `i`, as ASCII bytes: real digits while
/// they last, pad bytes beyond them.
pub(crate) fn syllable_bytes(cons: &Vec<u8>, vows: &Vec<u8>, i: usize) -> (r: (u8, u8, u8))
    requires
        crate::alphabet::ascii_bytes(cons@),
        crate::alphabet::ascii_bytes(vows@),
    ensures
        r.0 as char == cons_slot(crate::alphabet::byte_chars(cons@), 2 * i as int),
        r.1 as char == vowel_slot(crate::alphabet::byte_chars(vows@), i as int),
        r.2 as char == cons_slot(crate::alphabet::byte_chars(cons@), 2 * i + 1),
        r.0 < 128 && r.1 < 128 && r.2 < 128,
{
    let clen = cons.len();
    let half_up = clen / 2 + clen % 2;
    let a = if i < half_up {
        cons[2 * i]
    } else {
        'h' as u8
    };
    let b = if i < vows.len() {
        vows[i]
    } else {
        'e' as u8
    };
    let d = if i < clen / 2 {
        cons[2 * i + 1]
    } else {
        'h' as u8
    };
    (a, b, d)
}

/// The digit streams of a full gibbercode string are exactly the two radix
/// digit strings it was built from.
pub proof fn lemma_gibber_streams(major: u128, minor: u128)
    ensures
        consonant_stream(gibber_chars(major, minor)) == radix_encode(major as nat, consonants()),
        vowel_stream(gibber_chars(major, minor)) == radix_encode(minor as nat, vowels()),
{
    crate::alphabet::lemma_alphabets_disjoint();
    let c = radix_encode(major as nat, consonants());
    let v = radix_encode(minor as nat, vowels());
    crate::radix::lemma_radix_encode_in_alphabet(major as nat, consonants());
    crate::radix::lemma_radix_encode_in_alphabet(minor as nat, vowels());
    let n = syllable_count(c, v);
    let wc = word_count(c, v);
    assert(words(c, v).take(wc) =~= words(c, v));
    lemma_join_words_streams(c, v, wc);
    assert(min(2 * wc, n) == n);
    lemma_syllables_upto_streams(c, v, n);
    assert(c.take(min(2 * n, c.len() as int)) =~= c);
    assert(v.take(min(n, v.len() as int)) =~= v);
}

} // verus!
