//! The lexicographic order on words.

use vstd::prelude::*;

verus! {

/// `a` and `b` hold the same characters before index `k`.
pub open spec fn agree_before(a: Seq<char>, b: Seq<char>, k: int) -> bool {
    &&& 0 <= k <= a.len()
    &&& k <= b.len()
    &&& forall|i: int| 0 <= i < k ==> a[i] == b[i]
}

/// `a` comes before `b` in the dictionary: at the first index where they
/// differ, `a` has ended or holds the character with the smaller code point.
pub open spec fn lex_less(a: Seq<char>, b: Seq<char>) -> bool {
    exists|k: int| #[trigger]
        agree_before(a, b, k) && k < b.len() && (k == a.len() || (a[k] as int) < (b[k] as int))
}

/// Every word of `words` comes before each word that follows it.
pub open spec fn strictly_sorted(words: Seq<Seq<char>>) -> bool {
    forall|i: int, j: int| 0 <= i < j < words.len() ==> lex_less(words[i], words[j])
}

/// How one word stands to another in the dictionary.
#[derive(Clone, Copy, Debug, PartialEq, Eq, Structural)]
pub enum Rank {
    Before,
    Same,
    After,
}

/// What `Rank` says of `a` against `b`.
pub open spec fn rank_of(a: Seq<char>, b: Seq<char>) -> Rank {
    if a == b {
        Rank::Same
    } else if lex_less(a, b) {
        Rank::Before
    } else {
        Rank::After
    }
}

/// No word comes before itself.
pub proof fn lemma_lex_irreflexive(a: Seq<char>)
    ensures
        !lex_less(a, a),
{
}

/// If `a` comes before `b` and `b` before `c`, then `a` comes before `c`.
pub proof fn lemma_lex_transitive(a: Seq<char>, b: Seq<char>, c: Seq<char>)
    requires
        lex_less(a, b),
        lex_less(b, c),
    ensures
        lex_less(a, c),
{
    let k1 = choose|k: int| #[trigger]
        agree_before(a, b, k) && k < b.len() && (k == a.len() || (a[k] as int) < (b[k] as int));
    let k2 = choose|k: int| #[trigger]
        agree_before(b, c, k) && k < c.len() && (k == b.len() || (b[k] as int) < (c[k] as int));
    let k = if k1 <= k2 { k1 } else { k2 };
    assert(agree_before(a, c, k));
}

/// Of two different words, one comes before the other.
pub proof fn lemma_lex_total(a: Seq<char>, b: Seq<char>)
    ensures
        a == b || lex_less(a, b) || lex_less(b, a),
    decreases a.len(),
{
    lemma_first_difference(a, b, 0);
}

/// Two words that agree before `k` are equal or one comes before the other.
proof fn lemma_first_difference(a: Seq<char>, b: Seq<char>, k: int)
    requires
        agree_before(a, b, k),
    ensures
        a == b || lex_less(a, b) || lex_less(b, a),
    decreases a.len() - k,
{
    if k == a.len() {
        if k == b.len() {
            assert(a =~= b);
        } else {
            assert(agree_before(a, b, k));
        }
    } else if k == b.len() {
        assert(agree_before(b, a, k));
    } else if a[k] == b[k] {
        lemma_first_difference(a, b, k + 1);
    } else if (a[k] as int) < (b[k] as int) {
        assert(agree_before(a, b, k));
    } else {
        assert(agree_before(b, a, k));
    }
}

/// A strictly sorted list holds no word twice.
pub proof fn lemma_sorted_no_duplicates(words: Seq<Seq<char>>)
    requires
        strictly_sorted(words),
    ensures
        words.no_duplicates(),
{
    assert forall|i: int, j: int|
        0 <= i < words.len() && 0 <= j < words.len() && i != j implies words[i] != words[j] by {
        lemma_lex_irreflexive(words[i]);
        if i < j {
            assert(lex_less(words[i], words[j]));
        } else {
            assert(lex_less(words[j], words[i]));
        }
    }
}

/// Two strictly sorted lists that hold the same words are the same list.
pub proof fn lemma_sorted_unique(first: Seq<Seq<char>>, second: Seq<Seq<char>>)
    requires
        strictly_sorted(first),
        strictly_sorted(second),
        forall|word: Seq<char>| first.contains(word) <==> second.contains(word),
    ensures
        first == second,
    decreases first.len(),
{
    if first.len() == 0 {
        if second.len() > 0 {
            assert(second.contains(second[0]));
        }
        assert(first =~= second);
    } else if second.len() == 0 {
        assert(first.contains(first[0]));
    } else {
        // The least word of each list is the least word of the other.
        let a = first[0];
        let b = second[0];
        assert(first.contains(a));
        assert(second.contains(b));
        let i = choose|i: int| 0 <= i < second.len() && second[i] == a;
        let j = choose|j: int| 0 <= j < first.len() && first[j] == b;
        if a != b {
            assert(i > 0 && j > 0);
            assert(lex_less(b, a));
            assert(lex_less(a, b));
            lemma_lex_transitive(a, b, a);
            lemma_lex_irreflexive(a);
        }
        let first_rest = first.drop_first();
        let second_rest = second.drop_first();
        lemma_sorted_no_duplicates(first);
        lemma_sorted_no_duplicates(second);
        assert forall|word: Seq<char>| first_rest.contains(word) <==> second_rest.contains(
            word,
        ) by {
            if first_rest.contains(word) {
                let m = choose|m: int| 0 <= m < first_rest.len() && first_rest[m] == word;
                assert(first[m + 1] == word);
                assert(first.contains(word));
                let n = choose|n: int| 0 <= n < second.len() && second[n] == word;
                assert(n != 0);
                assert(second_rest[n - 1] == word);
            }
            if second_rest.contains(word) {
                let m = choose|m: int| 0 <= m < second_rest.len() && second_rest[m] == word;
                assert(second[m + 1] == word);
                assert(second.contains(word));
                let n = choose|n: int| 0 <= n < first.len() && first[n] == word;
                assert(n != 0);
                assert(first_rest[n - 1] == word);
            }
        }
        assert(strictly_sorted(first_rest)) by {
            assert forall|x: int, y: int| 0 <= x < y < first_rest.len() implies lex_less(
                first_rest[x],
                first_rest[y],
            ) by {
                assert(lex_less(first[x + 1], first[y + 1]));
            }
        }
        assert(strictly_sorted(second_rest)) by {
            assert forall|x: int, y: int| 0 <= x < y < second_rest.len() implies lex_less(
                second_rest[x],
                second_rest[y],
            ) by {
                assert(lex_less(second[x + 1], second[y + 1]));
            }
        }
        lemma_sorted_unique(first_rest, second_rest);
        assert(first =~= seq![a] + first_rest);
        assert(second =~= seq![b] + second_rest);
    }
}

/// Of two words, at most one comes before the other.
pub proof fn lemma_lex_asymmetric(a: Seq<char>, b: Seq<char>)
    requires
        lex_less(a, b),
    ensures
        !lex_less(b, a),
        a != b,
{
    lemma_lex_irreflexive(a);
    if lex_less(b, a) {
        lemma_lex_transitive(a, b, a);
    }
}

/// Ranks the characters of `path` against the text `word`.
pub fn rank_against(path: &Vec<char>, word: &str) -> (rank: Rank)
    ensures
        rank == rank_of(path@, word@),
{
    broadcast use vstd::string::group_string_axioms;

    let mut index: usize = 0;
    let chars = word.chars();
    for c in it: chars
        invariant
            it.seq() == word@,
            index == it.index(),
            agree_before(path@, word@, index as int),
    {
        if index >= path.len() {
            proof {
                assert(agree_before(path@, word@, index as int));
                lemma_lex_asymmetric(path@, word@);
            }
            return Rank::Before;
        }
        let p = path[index];
        if p != c {
            if p < c {
                proof {
                    assert(agree_before(path@, word@, index as int));
                    lemma_lex_asymmetric(path@, word@);
                }
                return Rank::Before;
            } else {
                proof {
                    assert(agree_before(word@, path@, index as int));
                    lemma_lex_asymmetric(word@, path@);
                }
                return Rank::After;
            }
        }
        index += 1;
    }
    if index < path.len() {
        proof {
            assert(agree_before(word@, path@, index as int));
            lemma_lex_asymmetric(word@, path@);
        }
        Rank::After
    } else {
        assert(path@ =~= word@);
        Rank::Same
    }
}

} // verus!
