//! The match engine: tests each candidate word against the rack, then shapes
//! the matches by one of the ordering policies.

use crate::configuration::Config;
use crate::letters::{
    count_letters, fits_in, is_subset_match, letter_counts, lower_of, lowercase, tally,
    LetterMultiset,
};
use crate::Options;
use vstd::multiset::Multiset;
use vstd::prelude::*;
use vstd::utf8::*;

verus! {

/// The length of a word in UTF-8 bytes, which is how word lengths are measured.
pub open spec fn byte_len(w: Seq<char>) -> nat {
    encode_utf8(w).len()
}

/// The texts of a list of strings.
pub open spec fn texts(v: Seq<String>) -> Seq<Seq<char>> {
    v.map_values(|s: String| s@)
}

/// The greatest byte length among the words, 0 for no words.
pub open spec fn max_byte_len(s: Seq<Seq<char>>) -> nat
    decreases s.len(),
{
    if s.len() == 0 {
        0
    } else {
        let m = max_byte_len(s.drop_last());
        if byte_len(s.last()) > m {
            byte_len(s.last())
        } else {
            m
        }
    }
}

/// The words of byte length `n`, in the order in which they stand.
pub open spec fn with_byte_len(s: Seq<Seq<char>>, n: nat) -> Seq<Seq<char>>
    decreases s.len(),
{
    if s.len() == 0 {
        s
    } else if byte_len(s.last()) == n {
        with_byte_len(s.drop_last(), n).push(s.last())
    } else {
        with_byte_len(s.drop_last(), n)
    }
}

/// Lexicographic order on byte strings; a proper prefix comes first.
pub open spec fn bytes_le(a: Seq<u8>, b: Seq<u8>) -> bool
    decreases a.len(),
{
    if a.len() == 0 {
        true
    } else if b.len() == 0 {
        false
    } else if a[0] != b[0] {
        a[0] < b[0]
    } else {
        bytes_le(a.drop_first(), b.drop_first())
    }
}

/// The order of `String`: lexicographic on the UTF-8 bytes.
pub open spec fn text_le(a: Seq<char>, b: Seq<char>) -> bool {
    bytes_le(encode_utf8(a), encode_utf8(b))
}

/// Each word comes no later than every word after it.
pub open spec fn ascending(s: Seq<Seq<char>>) -> bool {
    forall|i: int, j: int| 0 <= i < j < s.len() ==> text_le(s[i], s[j])
}

proof fn lemma_bytes_le_antisymmetric(a: Seq<u8>, b: Seq<u8>)
    requires
        bytes_le(a, b),
        bytes_le(b, a),
    ensures
        a == b,
    decreases a.len(),
{
    if a.len() > 0 {
        lemma_bytes_le_antisymmetric(a.drop_first(), b.drop_first());
        assert(a =~= seq![a[0]] + a.drop_first());
        assert(b =~= seq![b[0]] + b.drop_first());
    } else {
        assert(b =~= a);
    }
}

/// Two words that each come no later than the other are the same word.
pub proof fn lemma_text_le_antisymmetric(a: Seq<char>, b: Seq<char>)
    requires
        text_le(a, b),
        text_le(b, a),
    ensures
        a == b,
{
    lemma_bytes_le_antisymmetric(encode_utf8(a), encode_utf8(b));
    encode_utf8_decode_utf8(a);
    encode_utf8_decode_utf8(b);
}

/// There is one ascending arrangement of a collection of words: two ascending
/// sequences that hold the same words are equal.
pub proof fn lemma_ascending_unique(s: Seq<Seq<char>>, t: Seq<Seq<char>>)
    requires
        ascending(s),
        ascending(t),
        s.to_multiset() == t.to_multiset(),
    ensures
        s == t,
    decreases s.len(),
{
    broadcast use vstd::seq_lib::group_to_multiset_ensures;

    assert(s.len() == s.to_multiset().len());
    assert(t.len() == t.to_multiset().len());
    if s.len() > 0 {
        assert(s.to_multiset().count(s[0]) > 0);
        assert(t.contains(s[0]));
        let j = choose|j: int| 0 <= j < t.len() && t[j] == s[0];
        assert(t.to_multiset().count(t[0]) > 0);
        assert(s.contains(t[0]));
        let i = choose|i: int| 0 <= i < s.len() && s[i] == t[0];
        if j > 0 && i > 0 {
            assert(text_le(t[0], t[j]));
            assert(text_le(s[0], s[i]));
            lemma_text_le_antisymmetric(s[0], t[0]);
        }
        assert(s[0] == t[0]);
        assert(s.remove(0) =~= s.drop_first());
        assert(t.remove(0) =~= t.drop_first());
        assert(s.drop_first().to_multiset() == t.drop_first().to_multiset());
        lemma_ascending_unique(s.drop_first(), t.drop_first());
        assert forall|k: int| 0 <= k < s.len() implies s[k] == t[k] by {
            if k > 0 {
                assert(s[k] == s.drop_first()[k - 1]);
                assert(t[k] == t.drop_first()[k - 1]);
            }
        }
        assert(s =~= t);
    }
}

/// Relies on `slice::sort` with `String`'s `Ord`, which orders strings
/// lexicographically by their bytes: afterwards `words` holds the same
/// strings, ascending.
#[verifier::external_body]
fn sort_strings(words: &mut Vec<String>)
    ensures
        texts(final(words)@).to_multiset() == texts(old(words)@).to_multiset(),
        ascending(texts(final(words)@)),
{
    words.sort();
}

/// The alphabetical policy: the same words, ascending. Words already
/// ascending come back as they were.
pub fn sort_alphabetically(words: Vec<String>) -> (r: Vec<String>)
    ensures
        texts(r@).to_multiset() == texts(words@).to_multiset(),
        ascending(texts(r@)),
        ascending(texts(words@)) ==> texts(r@) == texts(words@),
{
    let mut sorted = words;
    sort_strings(&mut sorted);
    proof {
        if ascending(texts(words@)) {
            lemma_ascending_unique(texts(sorted@), texts(words@));
        }
    }
    sorted
}

/// The words grouped by byte length, from length `n` down to 1, each group in
/// the order in which its words stand. Words of length 0 fall out.
pub open spec fn desc_groups(s: Seq<Seq<char>>, n: nat) -> Seq<Seq<char>>
    decreases n,
{
    if n == 0 {
        Seq::empty()
    } else {
        with_byte_len(s, n) + desc_groups(s, (n - 1) as nat)
    }
}

/// Longer words come first, and words of one length come in ascending order.
pub open spec fn by_length_then_text(s: Seq<Seq<char>>) -> bool {
    forall|i: int, j: int|
        #![trigger s[i], s[j]]
        0 <= i < j < s.len() ==> byte_len(s[i]) > byte_len(s[j]) || (byte_len(s[i]) == byte_len(
            s[j],
        ) && text_le(s[i], s[j]))
}

/// No word is longer than the greatest length.
proof fn lemma_max_byte_len(s: Seq<Seq<char>>)
    ensures
        forall|i: int| 0 <= i < s.len() ==> byte_len(#[trigger] s[i]) <= max_byte_len(s),
    decreases s.len(),
{
    if s.len() > 0 {
        lemma_max_byte_len(s.drop_last());
        assert forall|i: int| 0 <= i < s.len() implies byte_len(#[trigger] s[i]) <= max_byte_len(
            s,
        ) by {
            if i < s.len() - 1 {
                assert(s[i] == s.drop_last()[i]);
            }
        }
    }
}

/// The words of one length: each has that length, each stands in `s` at or
/// after its position, and each of them occurs as often as in `s`.
proof fn lemma_with_byte_len(s: Seq<Seq<char>>, n: nat)
    ensures
        forall|i: int|
            0 <= i < with_byte_len(s, n).len() ==> byte_len(#[trigger] with_byte_len(s, n)[i])
                == n,
        forall|i: int|
            0 <= i < with_byte_len(s, n).len() ==> exists|j: int|
                0 <= j < s.len() && s[j] == #[trigger] with_byte_len(s, n)[i],
        forall|w: Seq<char>|
            #[trigger] with_byte_len(s, n).to_multiset().count(w) == if byte_len(w) == n {
                s.to_multiset().count(w)
            } else {
                0
            },
        ascending(s) ==> ascending(with_byte_len(s, n)),
    decreases s.len(),
{
    broadcast use vstd::seq_lib::group_to_multiset_ensures;

    if s.len() == 0 {
        assert(s.to_multiset() =~= Multiset::empty());
    } else {
        let p = s.drop_last();
        let r = with_byte_len(s, n);
        let q = with_byte_len(p, n);
        lemma_with_byte_len(p, n);
        assert(s =~= p.push(s.last()));
        assert forall|i: int| 0 <= i < q.len() implies exists|j: int|
            0 <= j < s.len() - 1 && s[j] == #[trigger] q[i] by {
            let j = choose|j: int| 0 <= j < p.len() && p[j] == q[i];
            assert(s[j] == p[j]);
        }
        if byte_len(s.last()) == n {
            assert(r == q.push(s.last()));
            assert forall|i: int| 0 <= i < r.len() implies exists|j: int|
                0 <= j < s.len() && s[j] == #[trigger] r[i] by {
                if i == r.len() - 1 {
                    assert(s[s.len() - 1] == r[i]);
                } else {
                    assert(r[i] == q[i]);
                    let j = choose|j: int| 0 <= j < s.len() - 1 && s[j] == q[i];
                    assert(s[j] == r[i]);
                }
            }
            if ascending(s) {
                assert(ascending(p));
                assert forall|i: int, j: int| 0 <= i < j < r.len() implies text_le(r[i], r[j]) by {
                    if j == r.len() - 1 {
                        let k = choose|k: int| 0 <= k < s.len() - 1 && s[k] == q[i];
                        assert(text_le(s[k], s[s.len() - 1]));
                    } else {
                        assert(r[i] == q[i] && r[j] == q[j]);
                    }
                }
            }
        } else {
            assert(r == q);
            if ascending(s) {
                assert(ascending(p));
            }
        }
    }
}

/// The length groups from `n` down to 1 of an ascending sequence are ordered
/// by length and then by text, hold lengths 1 to `n` only, and hold each word
/// of such a length as often as `s` does.
proof fn lemma_desc_groups(s: Seq<Seq<char>>, n: nat)
    requires
        ascending(s),
    ensures
        forall|i: int|
            0 <= i < desc_groups(s, n).len() ==> 1 <= byte_len(#[trigger] desc_groups(s, n)[i])
                <= n,
        by_length_then_text(desc_groups(s, n)),
        forall|w: Seq<char>|
            #[trigger] desc_groups(s, n).to_multiset().count(w) == if 1 <= byte_len(w) <= n {
                s.to_multiset().count(w)
            } else {
                0
            },
    decreases n,
{
    broadcast use vstd::seq_lib::group_to_multiset_ensures;

    if n == 0 {
        assert(desc_groups(s, n).to_multiset() =~= Multiset::empty());
    } else {
        let f = with_byte_len(s, n);
        let g = desc_groups(s, (n - 1) as nat);
        let r = desc_groups(s, n);
        lemma_with_byte_len(s, n);
        lemma_desc_groups(s, (n - 1) as nat);
        assert(r == f + g);
        vstd::seq_lib::lemma_multiset_commutative(f, g);
        assert forall|i: int| 0 <= i < r.len() implies 1 <= byte_len(#[trigger] r[i]) <= n by {
            if i < f.len() {
                assert(r[i] == f[i]);
            } else {
                assert(r[i] == g[i - f.len()]);
            }
        }
        assert forall|i: int, j: int| 0 <= i < j < r.len() implies byte_len(r[i]) > byte_len(r[j])
            || (byte_len(r[i]) == byte_len(r[j]) && text_le(r[i], r[j])) by {
            if j < f.len() {
                assert(r[i] == f[i] && r[j] == f[j]);
                assert(byte_len(f[i]) == n && byte_len(f[j]) == n);
                assert(text_le(f[i], f[j]));
            } else if i < f.len() {
                assert(r[i] == f[i] && r[j] == g[j - f.len()]);
                assert(byte_len(f[i]) == n);
                assert(byte_len(g[j - f.len()]) <= n - 1);
            } else {
                let a = i - f.len();
                let b = j - f.len();
                assert(r[i] == g[a] && r[j] == g[b]);
                assert(byte_len(g[a]) > byte_len(g[b]) || (byte_len(g[a]) == byte_len(g[b])
                    && text_le(g[a], g[b])));
            }
        }
    }
}

/// The longest-only policy keeps exactly the words of the greatest length:
/// every word it keeps has that length, and each word of that length is kept
/// as many times as it occurs.
pub proof fn lemma_longest_only(s: Seq<Seq<char>>)
    ensures
        forall|i: int|
            0 <= i < with_byte_len(s, max_byte_len(s)).len() ==> byte_len(
                #[trigger] with_byte_len(s, max_byte_len(s))[i],
            ) == max_byte_len(s),
        forall|w: Seq<char>|
            byte_len(w) == max_byte_len(s) ==> #[trigger] with_byte_len(
                s,
                max_byte_len(s),
            ).to_multiset().count(w) == s.to_multiset().count(w),
{
    lemma_with_byte_len(s, max_byte_len(s));
}

/// The alphabetical policy is idempotent: once `once` is an ascending
/// arrangement of `s`, sorting it again (into `twice`) changes nothing.
pub proof fn lemma_alphabetical_idempotent(
    s: Seq<Seq<char>>,
    once: Seq<Seq<char>>,
    twice: Seq<Seq<char>>,
)
    requires
        ascending(once),
        once.to_multiset() == s.to_multiset(),
        ascending(twice),
        twice.to_multiset() == once.to_multiset(),
    ensures
        twice == once,
{
    lemma_ascending_unique(twice, once);
}

/// The byte length of a word.
pub(crate) fn byte_length(w: &String) -> (n: usize)
    ensures
        n == byte_len(w@),
{
    w.as_str().as_bytes().len()
}

/// Returns the greatest byte length among `words`, 0 when there are none.
pub fn get_longest_word_length(words: &Vec<String>) -> (r: usize)
    ensures
        r == max_byte_len(texts(words@)),
{
    let mut longest_word: usize = 0;
    let mut i: usize = 0;
    while i < words.len()
        invariant
            i <= words@.len(),
            longest_word == max_byte_len(texts(words@.take(i as int))),
        decreases words@.len() - i,
    {
        assert(texts(words@.take(i + 1)).drop_last() =~= texts(words@.take(i as int)));
        let n = byte_length(&words[i]);
        if n > longest_word {
            longest_word = n;
        }
        i = i + 1;
    }
    assert(words@.take(words@.len() as int) =~= words@);
    longest_word
}

/// Keeps the words whose byte length is the greatest among them, in the order
/// in which they stand.
pub fn filter_by_longest(words: Vec<String>) -> (r: Vec<String>)
    ensures
        texts(r@) == with_byte_len(texts(words@), max_byte_len(texts(words@))),
{
    let mut longest_words: Vec<String> = Vec::new();
    let longest_word = get_longest_word_length(&words);
    let mut i: usize = 0;
    while i < words.len()
        invariant
            i <= words@.len(),
            longest_word == max_byte_len(texts(words@)),
            texts(longest_words@) == with_byte_len(
                texts(words@.take(i as int)),
                longest_word as nat,
            ),
        decreases words@.len() - i,
    {
        assert(texts(words@.take(i + 1)).drop_last() =~= texts(words@.take(i as int)));
        if byte_length(&words[i]) == longest_word {
            let ghost prev = longest_words@;
            longest_words.push(words[i].clone());
            assert(texts(longest_words@) =~= texts(prev).push(words@[i as int]@));
        }
        i = i + 1;
    }
    assert(words@.take(words@.len() as int) =~= words@);
    longest_words
}

/// The length-descending policy: sorts the words, then emits them grouped
/// by byte length from the greatest down to 1, each group in ascending
/// order. Words of length 0 are left out.
pub fn sort_by_length(words: Vec<String>) -> (r: Vec<String>)
    ensures
        by_length_then_text(texts(r@)),
        forall|w: Seq<char>|
            #[trigger] texts(r@).to_multiset().count(w) == if byte_len(w) > 0 {
                texts(words@).to_multiset().count(w)
            } else {
                0
            },
{
    let mut words = words;
    let ghost input = words@;
    sort_strings(&mut words);
    let mut sorted_words: Vec<String> = Vec::new();
    let longest = get_longest_word_length(&words);
    let mut longest_word = longest;
    while longest_word > 0
        invariant
            longest_word <= longest,
            texts(sorted_words@) + desc_groups(texts(words@), longest_word as nat) == desc_groups(
                texts(words@),
                longest as nat,
            ),
        decreases longest_word,
    {
        let ghost start = sorted_words@;
        let mut i: usize = 0;
        while i < words.len()
            invariant
                i <= words@.len(),
                texts(sorted_words@) == texts(start) + with_byte_len(
                    texts(words@.take(i as int)),
                    longest_word as nat,
                ),
            decreases words@.len() - i,
        {
            assert(texts(words@.take(i + 1)).drop_last() =~= texts(words@.take(i as int)));
            if byte_length(&words[i]) == longest_word {
                let ghost prev = sorted_words@;
                sorted_words.push(words[i].clone());
                assert(texts(sorted_words@) =~= texts(prev).push(words@[i as int]@));
            }
            i = i + 1;
        }
        assert(words@.take(words@.len() as int) =~= words@);
        assert(texts(sorted_words@) + desc_groups(texts(words@), (longest_word - 1) as nat)
            =~= texts(start) + desc_groups(texts(words@), longest_word as nat));
        longest_word = longest_word - 1;
    }
    proof {
        let s = texts(words@);
        assert(texts(sorted_words@) =~= desc_groups(s, longest as nat));
        lemma_desc_groups(s, longest as nat);
        lemma_max_byte_len(s);
        assert forall|w: Seq<char>| #[trigger]
            texts(sorted_words@).to_multiset().count(w) == if byte_len(w) > 0 {
                texts(input).to_multiset().count(w)
            } else {
                0
            } by {
            broadcast use vstd::seq_lib::group_to_multiset_ensures;

            if byte_len(w) > longest {
                if s.contains(w) {
                    let k = choose|k: int| 0 <= k < s.len() && s[k] == w;
                }
            }
        }
    }
    sorted_words
}

/// `c` with an ASCII capital turned into its small letter; any other
/// character unchanged.
pub open spec fn ascii_lower(c: char) -> char {
    if 'A' <= c && c <= 'Z' {
        ((c as u8) + 32) as char
    } else {
        c
    }
}

/// Lowercases an ASCII capital, as `char::to_ascii_lowercase` does.
fn to_ascii_lower(c: char) -> (r: char)
    ensures
        r == ascii_lower(c),
{
    if 'A' <= c && c <= 'Z' {
        ((c as u8) + 32) as char
    } else {
        c
    }
}

/// Whether `c` occurs in `s`.
fn contains_char(s: &str, c: char) -> (r: bool)
    ensures
        r == s@.contains(c),
{
    for x in it: s.chars()
        invariant
            it.seq() == s@,
            forall|a: int| 0 <= a < it.index() ==> s@[a] != c,
    {
        if x == c {
            return true;
        }
    }
    false
}

/// Whether a word is kept: when a letter is required its lowercase form holds
/// that letter (lowercased in ASCII), and its lowercase letters fit in the rack.
pub open spec fn accepts(
    rack: Map<char, nat>,
    word: Seq<char>,
    require_letter: bool,
    letter: char,
) -> bool {
    &&& require_letter ==> lower_of(word).contains(ascii_lower(letter))
    &&& fits_in(letter_counts(lower_of(word)), rack)
}

/// The accepted words, in the order in which they stand.
pub open spec fn accepted(
    rack: Map<char, nat>,
    words: Seq<Seq<char>>,
    require_letter: bool,
    letter: char,
) -> Seq<Seq<char>>
    decreases words.len(),
{
    if words.len() == 0 {
        words
    } else if accepts(rack, words.last(), require_letter, letter) {
        accepted(rack, words.drop_last(), require_letter, letter).push(words.last())
    } else {
        accepted(rack, words.drop_last(), require_letter, letter)
    }
}

/// Decides whether one candidate word is kept; the required-letter test comes
/// first, and spares the count when it fails.
pub fn is_match(
    rack: &LetterMultiset,
    word: &String,
    require_letter: bool,
    letter: char,
) -> (r: bool)
    requires
        rack.wf(),
    ensures
        r == accepts(rack@, word@, require_letter, letter),
{
    let lowered = lowercase(word.as_str());
    if require_letter && !contains_char(lowered.as_str(), to_ascii_lower(letter)) {
        return false;
    }
    let counts = tally(lowered.as_str());
    is_subset_match(rack, &counts)
}

/// Scans the words in order and keeps, in that order, those that are matches.
pub fn match_words(
    rack: &LetterMultiset,
    words: &Vec<String>,
    require_letter: bool,
    letter: char,
) -> (r: Vec<String>)
    requires
        rack.wf(),
    ensures
        texts(r@) == accepted(rack@, texts(words@), require_letter, letter),
{
    let mut out: Vec<String> = Vec::new();
    let mut i: usize = 0;
    while i < words.len()
        invariant
            rack.wf(),
            i <= words@.len(),
            texts(out@) == accepted(rack@, texts(words@.take(i as int)), require_letter, letter),
        decreases words@.len() - i,
    {
        assert(texts(words@.take(i + 1)).drop_last() =~= texts(words@.take(i as int)));
        if is_match(rack, &words[i], require_letter, letter) {
            let ghost prev = out@;
            out.push(words[i].clone());
            assert(texts(out@) =~= texts(prev).push(words@[i as int]@));
        }
        i = i + 1;
    }
    assert(words@.take(words@.len() as int) =~= words@);
    out
}

/// What a policy makes of the matches `m`: `r` is its output.
pub open spec fn shaped_by(options: Options, m: Seq<Seq<char>>, r: Seq<Seq<char>>) -> bool {
    match options {
        Options::ScanOrder => r == m,
        Options::Alpha => ascending(r) && r.to_multiset() == m.to_multiset(),
        Options::Len => {
            &&& by_length_then_text(r)
            &&& forall|w: Seq<char>|
                #[trigger] r.to_multiset().count(w) == if byte_len(w) > 0 {
                    m.to_multiset().count(w)
                } else {
                    0
                }
        },
        Options::Longest => r == with_byte_len(m, max_byte_len(m)),
    }
}

/// Finds the words that can be spelled from the rack `config.letters` (and
/// that hold the required letter, when one is required), then applies the
/// ordering policy of `config`.
pub fn run(config: &Config, words: Vec<String>) -> (r: Vec<String>)
    ensures
        shaped_by(
            config.options,
            accepted(
                letter_counts(lower_of(config.letters@)),
                texts(words@),
                config.require_letter,
                config.letter,
            ),
            texts(r@),
        ),
{
    let input_letter_count = count_letters(config.letters.clone());
    let out = match_words(&input_letter_count, &words, config.require_letter, config.letter);
    match config.options {
        Options::ScanOrder => out,
        Options::Alpha => sort_alphabetically(out),
        Options::Len => sort_by_length(out),
        Options::Longest => filter_by_longest(out),
    }
}

} // verus!
