//! Letter multisets: how many times each character occurs in a case-folded string.

use vstd::multiset::Multiset;
use vstd::prelude::*;
use vstd::utf8::*;

verus! {

/// The characters of `s` after Unicode lowercasing.
pub uninterp spec fn lower_of(s: Seq<char>) -> Seq<char>;

/// Relies on `str::to_lowercase`: the lowercase form depends on the characters alone.
#[verifier::external_body]
pub(crate) fn lowercase(s: &str) -> (r: String)
    ensures
        r@ == lower_of(s@),
{
    s.to_lowercase()
}

/// How often `c` is recorded in `m`, with 0 for a character that has no entry.
pub open spec fn count_in(m: Map<char, nat>, c: char) -> nat {
    if m.contains_key(c) {
        m[c]
    } else {
        0
    }
}

/// The occurrence count of every character of `t`: a character is a key
/// exactly when it occurs in `t`.
pub open spec fn letter_counts(t: Seq<char>) -> Map<char, nat>
    decreases t.len(),
{
    if t.len() == 0 {
        Map::empty()
    } else {
        let m = letter_counts(t.drop_last());
        m.insert(t.last(), count_in(m, t.last()) + 1)
    }
}

/// The map described by a list of (character, count) entries.
pub open spec fn entries_map(e: Seq<(char, usize)>) -> Map<char, nat>
    decreases e.len(),
{
    if e.len() == 0 {
        Map::empty()
    } else {
        entries_map(e.drop_last()).insert(e.last().0, e.last().1 as nat)
    }
}

/// A case-folded count of the characters of a string.
pub struct LetterMultiset {
    entries: Vec<(char, usize)>,
}

impl View for LetterMultiset {
    type V = Map<char, nat>;

    closed spec fn view(&self) -> Map<char, nat> {
        entries_map(self.entries@)
    }
}

/// True when no character occurs more often in `candidate` than in `rack`,
/// a character without a key counting 0.
pub open spec fn fits_in(candidate: Map<char, nat>, rack: Map<char, nat>) -> bool {
    forall|c: char| count_in(candidate, c) <= count_in(rack, c)
}

impl LetterMultiset {
    /// Each character has at most one entry, and no entry has a zero count.
    pub closed spec fn wf(&self) -> bool {
        &&& forall|i: int, j: int|
            0 <= i < j < self.entries@.len() ==> self.entries@[i].0 != self.entries@[j].0
        &&& forall|i: int| 0 <= i < self.entries@.len() ==> self.entries@[i].1 >= 1
    }

    /// How many times `c` was counted.
    pub fn count(&self, c: char) -> (r: usize)
        requires
            self.wf(),
        ensures
            r == count_in(self@, c),
    {
        let mut j: usize = 0;
        while j < self.entries.len()
            invariant
                self.wf(),
                j <= self.entries@.len(),
                forall|a: int| 0 <= a < j ==> self.entries@[a].0 != c,
            decreases self.entries@.len() - j,
        {
            if self.entries[j].0 == c {
                proof {
                    lemma_entries_map_at(self.entries@, j as int);
                }
                return self.entries[j].1;
            }
            j = j + 1;
        }
        proof {
            lemma_entries_map_absent(self.entries@, c);
        }
        0
    }
}

/// Entries with distinct characters record each entry's count under its character.
proof fn lemma_entries_map_at(e: Seq<(char, usize)>, i: int)
    requires
        0 <= i < e.len(),
        forall|a: int, b: int| 0 <= a < b < e.len() ==> e[a].0 != e[b].0,
    ensures
        entries_map(e).contains_key(e[i].0),
        entries_map(e)[e[i].0] == e[i].1 as nat,
    decreases e.len(),
{
    if i < e.len() - 1 {
        lemma_entries_map_at(e.drop_last(), i);
    }
}

/// A character with no entry is no key of the map.
proof fn lemma_entries_map_absent(e: Seq<(char, usize)>, c: char)
    requires
        forall|a: int| 0 <= a < e.len() ==> e[a].0 != c,
    ensures
        !entries_map(e).contains_key(c),
    decreases e.len(),
{
    if e.len() > 0 {
        lemma_entries_map_absent(e.drop_last(), c);
    }
}

/// Changing the count of one entry changes the map at that entry's character only.
proof fn lemma_entries_map_update(e: Seq<(char, usize)>, j: int, n: usize)
    requires
        0 <= j < e.len(),
        forall|a: int, b: int| 0 <= a < b < e.len() ==> e[a].0 != e[b].0,
    ensures
        entries_map(e.update(j, (e[j].0, n))) == entries_map(e).insert(e[j].0, n as nat),
    decreases e.len(),
{
    let u = e.update(j, (e[j].0, n));
    if j == e.len() - 1 {
        assert(u.drop_last() =~= e.drop_last());
        lemma_entries_map_absent(e.drop_last(), e[j].0);
        assert(entries_map(u) =~= entries_map(e).insert(e[j].0, n as nat));
    } else {
        lemma_entries_map_update(e.drop_last(), j, n);
        assert(u.drop_last() =~= e.drop_last().update(j, (e[j].0, n)));
        assert(entries_map(u) =~= entries_map(e).insert(e[j].0, n as nat));
    }
}

/// A string has at least as many UTF-8 bytes as characters.
proof fn lemma_bytes_at_least_chars(t: Seq<char>)
    ensures
        encode_utf8(t).len() >= t.len(),
    decreases t.len(),
{
    if t.len() > 0 {
        lemma_bytes_at_least_chars(t.drop_first());
    }
}

/// Every key of the map has an entry.
proof fn lemma_entries_map_key(e: Seq<(char, usize)>, c: char)
    requires
        entries_map(e).contains_key(c),
    ensures
        exists|a: int| 0 <= a < e.len() && e[a].0 == c,
{
    if forall|a: int| 0 <= a < e.len() ==> e[a].0 != c {
        lemma_entries_map_absent(e, c);
    }
}


/// Decides whether `candidate` can be spelled from `rack`: fails as soon as a
/// character of `candidate` is missing from `rack` or occurs there fewer times.
pub fn is_subset_match(rack: &LetterMultiset, candidate: &LetterMultiset) -> (r: bool)
    requires
        rack.wf(),
        candidate.wf(),
    ensures
        r == fits_in(candidate@, rack@),
{
    let mut j: usize = 0;
    while j < candidate.entries.len()
        invariant
            candidate.wf(),
            rack.wf(),
            j <= candidate.entries@.len(),
            forall|a: int|
                0 <= a < j ==> count_in(candidate@, #[trigger] candidate.entries@[a].0)
                    <= count_in(rack@, candidate.entries@[a].0),
        decreases candidate.entries@.len() - j,
    {
        let (c, n) = candidate.entries[j];
        proof {
            lemma_entries_map_at(candidate.entries@, j as int);
        }
        if rack.count(c) < n {
            return false;
        }
        j = j + 1;
    }
    assert forall|c: char| count_in(candidate@, c) <= count_in(rack@, c) by {
        if candidate@.contains_key(c) {
            lemma_entries_map_key(candidate.entries@, c);
        }
    }
    true
}

/// The count that `letter_counts` records for a character is the number of
/// its occurrences.
pub proof fn lemma_letter_counts_occurrences(t: Seq<char>, c: char)
    ensures
        count_in(letter_counts(t), c) == t.to_multiset().count(c),
    decreases t.len(),
{
    broadcast use vstd::seq_lib::group_to_multiset_ensures;

    if t.len() == 0 {
        assert(t.to_multiset() =~= Multiset::empty());
    } else {
        lemma_letter_counts_occurrences(t.drop_last(), c);
        assert(t =~= t.drop_last().push(t.last()));
    }
}

/// A candidate fits in a rack exactly when no character occurs more often in
/// the candidate's lowercase form than in the rack's.
pub proof fn lemma_fits_in_by_occurrences(rack: Seq<char>, candidate: Seq<char>)
    ensures
        fits_in(letter_counts(lower_of(candidate)), letter_counts(lower_of(rack)))
            <==> lower_of(candidate).to_multiset().subset_of(lower_of(rack).to_multiset()),
{
    assert forall|c: char|
        count_in(letter_counts(lower_of(candidate)), c) == lower_of(candidate).to_multiset().count(
            c,
        ) && count_in(letter_counts(lower_of(rack)), c) == lower_of(rack).to_multiset().count(
            c,
        ) by {
        lemma_letter_counts_occurrences(lower_of(candidate), c);
        lemma_letter_counts_occurrences(lower_of(rack), c);
    }
}

/// Counting ignores case: two strings with the same lowercase form have the
/// same multiset.
pub proof fn lemma_count_letters_case_insensitive(s: Seq<char>, t: Seq<char>)
    requires
        lower_of(s) == lower_of(t),
    ensures
        letter_counts(lower_of(s)) == letter_counts(lower_of(t)),
{
}

/// Counts the characters of `s` as they stand, without case folding.
pub(crate) fn tally(s: &str) -> (r: LetterMultiset)
    ensures
        r.wf(),
        r@ == letter_counts(s@),
        forall|c: char| #[trigger] r@.contains_key(c) ==> r@[c] >= 1,
{
    let bytes = s.as_bytes();
    let _ = bytes.len();
    proof {
        lemma_bytes_at_least_chars(s@);
    }
    let mut entries: Vec<(char, usize)> = Vec::new();
    for c in it: s.chars()
        invariant
            it.seq() == s@,
            s@.len() <= usize::MAX,
            forall|a: int, b: int|
                0 <= a < b < entries@.len() ==> entries@[a].0 != entries@[b].0,
            forall|a: int| 0 <= a < entries@.len() ==> 1 <= #[trigger] entries@[a].1 <= it.index(),
            entries_map(entries@) == letter_counts(s@.take(it.index() as int)),
    {
        let ghost k = it.index() as int;
        assert(c == s@[k]);
        assert(s@.take(k + 1).drop_last() =~= s@.take(k));
        let ghost before = letter_counts(s@.take(k));
        assert(letter_counts(s@.take(k + 1)) == before.insert(c, count_in(before, c) + 1));
        let mut j: usize = 0;
        while j < entries.len() && entries[j].0 != c
            invariant
                j <= entries@.len(),
                forall|a: int| 0 <= a < j ==> entries@[a].0 != c,
            decreases entries@.len() - j,
        {
            j = j + 1;
        }
        if j < entries.len() {
            let n = entries[j].1;
            proof {
                lemma_entries_map_at(entries@, j as int);
                lemma_entries_map_update(entries@, j as int, (n + 1) as usize);
            }
            entries.set(j, (c, n + 1));
            assert(entries_map(entries@) =~= before.insert(c, count_in(before, c) + 1));
        } else {
            proof {
                lemma_entries_map_absent(entries@, c);
            }
            let ghost prev = entries@;
            entries.push((c, 1));
            assert(entries@.drop_last() =~= prev);
            assert(entries_map(entries@) =~= before.insert(c, count_in(before, c) + 1));
        }
    }
    assert(s@.take(s@.len() as int) =~= s@);
    assert forall|c: char| #[trigger] entries_map(entries@).contains_key(c) implies entries_map(
        entries@,
    )[c] >= 1 by {
        lemma_entries_map_key(entries@, c);
        let a = choose|a: int| 0 <= a < entries@.len() && entries@[a].0 == c;
        lemma_entries_map_at(entries@, a);
    }
    LetterMultiset { entries }
}

/// Builds the multiset of `s`: lowercases it, then counts every character,
/// letter or not.
pub fn count_letters(s: String) -> (r: LetterMultiset)
    ensures
        r.wf(),
        r@ == letter_counts(lower_of(s@)),
        forall|c: char| #[trigger] r@.contains_key(c) ==> r@[c] >= 1,
{
    let lowered = lowercase(s.as_str());
    tally(lowered.as_str())
}

} // verus!
