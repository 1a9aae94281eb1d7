//! Sequence generation: ordered arrangements (permutations of distinct
//! positions), unordered selections (combinations), the full fixed-length
//! cross product, length ranges of either, and duplicate suppression.
//!
//! An alphabet is an ordered sequence of characters; repeated characters
//! are kept as distinct positions, so generated words may repeat as
//! string values, by design.

use crate::counting::{comb_count, perm_count, pow_count, range_total};
use vstd::prelude::*;

verus! {

/// The mathematical value of a word list: the sequence of its words'
/// character sequences.
pub open spec fn word_views(a: Seq<Vec<char>>) -> Seq<Seq<char>> {
    a.map_values(|v: Vec<char>| v@)
}

/// Appending a word to a list appends its characters to the list's value.
pub proof fn lemma_word_views_push(a: Seq<Vec<char>>, w: Vec<char>)
    ensures
        word_views(a.push(w)) == word_views(a).push(w@),
{
    assert(word_views(a.push(w)) =~~= word_views(a).push(w@));
}

/// The given word list, each word with `c` put in front.
pub open spec fn prefix_all(c: char, ws: Seq<Seq<char>>) -> Seq<Seq<char>> {
    ws.map_values(|w: Seq<char>| seq![c] + w)
}

/// Every ordered arrangement of exactly `k` positions of `s`, in the
/// order a recursive first-position selection yields: all arrangements
/// starting with position 0 first, then those starting with position 1,
/// and so on.
pub open spec fn perms_of(s: Seq<char>, k: nat) -> Seq<Seq<char>>
    decreases k, 1nat, 0nat,
{
    if k == 0 {
        seq![Seq::<char>::empty()]
    } else {
        perms_from(s, k, 0)
    }
}

/// The arrangements of `k` positions of `s` whose first position is `i`
/// or later.
pub open spec fn perms_from(s: Seq<char>, k: nat, i: nat) -> Seq<Seq<char>>
    decreases k, 0nat, s.len() - i,
{
    if k == 0 || i >= s.len() {
        Seq::empty()
    } else {
        prefix_all(s[i as int], perms_of(s.remove(i as int), (k - 1) as nat)) + perms_from(
            s,
            k,
            i + 1,
        )
    }
}

/// A fresh copy of one word.
pub fn copy_word(w: &Vec<char>) -> (r: Vec<char>)
    ensures
        r@ == w@,
{
    let mut r: Vec<char> = Vec::new();
    let mut j: usize = 0;
    while j < w.len()
        invariant
            j <= w.len(),
            r@ == w@.take(j as int),
        decreases w.len() - j,
    {
        r.push(w[j]);
        proof {
            assert(r@ =~= w@.take(j + 1));
        }
        j = j + 1;
    }
    proof {
        assert(r@ =~= w@);
    }
    r
}

/// One word: `c` followed by `w`.
fn word_with_prefix(c: char, w: &Vec<char>) -> (r: Vec<char>)
    ensures
        r@ == seq![c] + w@,
{
    let mut r: Vec<char> = Vec::new();
    r.push(c);
    let mut j: usize = 0;
    while j < w.len()
        invariant
            j <= w.len(),
            r@ == seq![c] + w@.take(j as int),
        decreases w.len() - j,
    {
        r.push(w[j]);
        proof {
            assert(r@ =~= seq![c] + w@.take(j + 1));
        }
        j = j + 1;
    }
    proof {
        assert(r@ =~= seq![c] + w@);
    }
    r
}

/// The alphabet with the position `i` taken out.
fn alphabet_without(s: &Vec<char>, i: usize) -> (r: Vec<char>)
    requires
        i < s.len(),
    ensures
        r@ == s@.remove(i as int),
{
    let mut r = copy_word(s);
    r.remove(i);
    r
}

/// Every ordered arrangement of exactly `k` positions of the alphabet,
/// one word per arrangement, in first-position order. An alphabet with
/// repeated characters yields repeated words, one per arrangement of
/// positions.
pub fn permutations(alphabet: &Vec<char>, k: usize) -> (r: Vec<Vec<char>>)
    ensures
        word_views(r@) == perms_of(alphabet@, k as nat),
    decreases k,
{
    let mut r: Vec<Vec<char>> = Vec::new();
    if k == 0 {
        r.push(Vec::new());
        proof {
            assert(word_views(r@) =~~= perms_of(alphabet@, 0));
        }
        return r;
    }
    let mut i: usize = 0;
    while i < alphabet.len()
        invariant
            i <= alphabet.len(),
            1 <= k,
            word_views(r@) + perms_from(alphabet@, k as nat, i as nat) == perms_from(
                alphabet@,
                k as nat,
                0,
            ),
        decreases alphabet.len() - i,
    {
        let c = alphabet[i];
        let removed = alphabet_without(alphabet, i);
        let sub = permutations(&removed, k - 1);
        let ghost r0 = word_views(r@);
        let ghost block = prefix_all(c, word_views(sub@));
        let mut t: usize = 0;
        while t < sub.len()
            invariant
                t <= sub.len(),
                block == prefix_all(c, word_views(sub@)),
                word_views(r@) == r0 + block.take(t as int),
            decreases sub.len() - t,
        {
            let w = word_with_prefix(c, &sub[t]);
            let ghost prev = r@;
            r.push(w);
            proof {
                lemma_word_views_push(prev, w);
                assert(word_views(prev).push(w@) =~~= r0 + block.take(t + 1));
            }
            t = t + 1;
        }
        proof {
            assert(block.take(sub@.len() as int) =~~= block);
            assert(perms_from(alphabet@, k as nat, i as nat) == block + perms_from(
                alphabet@,
                k as nat,
                (i + 1) as nat,
            ));
            assert(word_views(r@) + perms_from(alphabet@, k as nat, (i + 1) as nat)
                =~~= perms_from(alphabet@, k as nat, 0));
        }
        i = i + 1;
    }
    proof {
        assert(perms_from(alphabet@, k as nat, alphabet@.len() as nat) =~~= Seq::<
            Seq<char>,
        >::empty());
        assert(word_views(r@) =~~= perms_of(alphabet@, k as nat));
    }
    r
}

/// Arrangements with first position `i` or later: one block of
/// `P(n-1, k-1)` words for each remaining first position.
proof fn lemma_perms_from_len(s: Seq<char>, k: nat, i: nat)
    requires
        1 <= k,
        i <= s.len(),
    ensures
        perms_from(s, k, i).len() == (s.len() - i) * perm_count(
            (s.len() - 1) as nat,
            (k - 1) as nat,
        ),
    decreases k, 0nat, s.len() - i,
{
    let p = perm_count((s.len() - 1) as nat, (k - 1) as nat);
    if i >= s.len() {
        assert((s.len() - i) * p == 0) by (nonlinear_arith)
            requires
                s.len() - i == 0,
        ;
    } else {
        lemma_perms_len(s.remove(i as int), (k - 1) as nat);
        lemma_perms_from_len(s, k, i + 1);
        assert(perms_from(s, k, i).len() == p + (s.len() - i - 1) * p);
        assert(p + (s.len() - i - 1) * p == (s.len() - i) * p) by (nonlinear_arith);
    }
}

/// The permutation generator yields exactly `P(n, k)` words.
pub proof fn lemma_perms_len(s: Seq<char>, k: nat)
    ensures
        perms_of(s, k).len() == perm_count(s.len(), k),
    decreases k, 1nat, 0nat,
{
    if k == 0 {
        assert(perm_count(s.len(), 0) == 1);
    } else {
        lemma_perms_from_len(s, k, 0);
        let p = perm_count((s.len() - 1) as nat, (k - 1) as nat);
        if k > s.len() {
            if s.len() == 0 {
                assert(s.len() * p == 0) by (nonlinear_arith)
                    requires
                        s.len() == 0,
                ;
            } else {
                assert(p == 0);
                assert(s.len() * p == 0) by (nonlinear_arith)
                    requires
                        p == 0,
                ;
            }
            assert(perm_count(s.len(), k) == 0);
        } else {
            assert(perm_count(s.len(), k) == s.len() * p);
        }
    }
}

/// Every unordered selection of exactly `k` positions of `s`, each word
/// keeping the alphabet's own order: selections using position 0 first,
/// then those that skip it.
pub open spec fn combs_of(s: Seq<char>, k: nat) -> Seq<Seq<char>>
    decreases s.len(), k,
{
    if k == 0 {
        seq![Seq::<char>::empty()]
    } else if s.len() == 0 {
        Seq::empty()
    } else {
        prefix_all(s[0], combs_of(s.drop_first(), (k - 1) as nat)) + combs_of(s.drop_first(), k)
    }
}

/// Every unordered selection of exactly `k` positions of the alphabet,
/// one word per selection, characters in alphabet order.
pub fn combinations(alphabet: &Vec<char>, k: usize) -> (r: Vec<Vec<char>>)
    ensures
        word_views(r@) == combs_of(alphabet@, k as nat),
    decreases alphabet.len(),
{
    let mut r: Vec<Vec<char>> = Vec::new();
    if k == 0 {
        r.push(Vec::new());
        proof {
            assert(word_views(r@) =~~= combs_of(alphabet@, 0));
        }
        return r;
    }
    if alphabet.len() == 0 {
        proof {
            assert(word_views(r@) =~~= combs_of(alphabet@, k as nat));
        }
        return r;
    }
    let c = alphabet[0];
    let rest = alphabet_without(alphabet, 0);
    proof {
        assert(alphabet@.remove(0) =~= alphabet@.drop_first());
    }
    let with_first = combinations(&rest, k - 1);
    let without_first = combinations(&rest, k);
    let ghost block = prefix_all(c, word_views(with_first@));
    let mut t: usize = 0;
    while t < with_first.len()
        invariant
            t <= with_first.len(),
            block == prefix_all(c, word_views(with_first@)),
            word_views(r@) == block.take(t as int),
        decreases with_first.len() - t,
    {
        let w = word_with_prefix(c, &with_first[t]);
        let ghost prev = r@;
        r.push(w);
        proof {
            lemma_word_views_push(prev, w);
            assert(word_views(prev).push(w@) =~~= block.take(t + 1));
        }
        t = t + 1;
    }
    proof {
        assert(block.take(with_first@.len() as int) =~~= block);
    }
    let mut u: usize = 0;
    while u < without_first.len()
        invariant
            u <= without_first.len(),
            block == prefix_all(c, word_views(with_first@)),
            word_views(r@) == block + word_views(without_first@).take(u as int),
        decreases without_first.len() - u,
    {
        let w = copy_word(&without_first[u]);
        let ghost prev = r@;
        r.push(w);
        proof {
            lemma_word_views_push(prev, w);
            assert(word_views(prev).push(w@) =~~= block + word_views(without_first@).take(u + 1));
        }
        u = u + 1;
    }
    proof {
        assert(word_views(without_first@).take(without_first@.len() as int) =~~= word_views(
            without_first@,
        ));
        assert(word_views(r@) =~~= combs_of(alphabet@, k as nat));
    }
    r
}

/// The combination generator yields exactly `C(n, k)` words.
pub proof fn lemma_combs_len(s: Seq<char>, k: nat)
    ensures
        combs_of(s, k).len() == comb_count(s.len(), k),
    decreases s.len(), k,
{
    if k == 0 {
        assert(comb_count(s.len(), 0) == 1);
    } else if s.len() == 0 {
        assert(comb_count(0, k) == 0);
    } else {
        lemma_combs_len(s.drop_first(), (k - 1) as nat);
        lemma_combs_len(s.drop_first(), k);
        if k > s.len() {
            assert(comb_count((s.len() - 1) as nat, (k - 1) as nat) == 0);
            assert(comb_count((s.len() - 1) as nat, k) == 0);
            assert(comb_count(s.len(), k) == 0);
        } else {
            assert(comb_count(s.len(), k) == comb_count((s.len() - 1) as nat, (k - 1) as nat)
                + comb_count((s.len() - 1) as nat, k));
        }
    }
}

/// Every word of exactly `k` characters over the alphabet, repetition
/// allowed: the full cross product, in lexicographic position order.
pub open spec fn words_of(s: Seq<char>, k: nat) -> Seq<Seq<char>>
    decreases k, 1nat, 0nat,
{
    if k == 0 {
        seq![Seq::<char>::empty()]
    } else {
        words_from(s, k, 0)
    }
}

/// The length-`k` words whose first character is at position `i` or later.
pub open spec fn words_from(s: Seq<char>, k: nat, i: nat) -> Seq<Seq<char>>
    decreases k, 0nat, s.len() - i,
{
    if k == 0 || i >= s.len() {
        Seq::empty()
    } else {
        prefix_all(s[i as int], words_of(s, (k - 1) as nat)) + words_from(s, k, i + 1)
    }
}

/// The full cross product: every word of exactly `length` characters
/// over the alphabet, repetition across positions allowed, in
/// lexicographic position order.
pub fn cartesian_words(alphabet: &Vec<char>, length: usize) -> (r: Vec<Vec<char>>)
    ensures
        word_views(r@) == words_of(alphabet@, length as nat),
    decreases length,
{
    let mut r: Vec<Vec<char>> = Vec::new();
    if length == 0 {
        r.push(Vec::new());
        proof {
            assert(word_views(r@) =~~= words_of(alphabet@, 0));
        }
        return r;
    }
    let sub = cartesian_words(alphabet, length - 1);
    let mut i: usize = 0;
    while i < alphabet.len()
        invariant
            i <= alphabet.len(),
            1 <= length,
            word_views(sub@) == words_of(alphabet@, (length - 1) as nat),
            word_views(r@) + words_from(alphabet@, length as nat, i as nat) == words_from(
                alphabet@,
                length as nat,
                0,
            ),
        decreases alphabet.len() - i,
    {
        let c = alphabet[i];
        let ghost r0 = word_views(r@);
        let ghost block = prefix_all(c, word_views(sub@));
        let mut t: usize = 0;
        while t < sub.len()
            invariant
                t <= sub.len(),
                block == prefix_all(c, word_views(sub@)),
                word_views(r@) == r0 + block.take(t as int),
            decreases sub.len() - t,
        {
            let w = word_with_prefix(c, &sub[t]);
            let ghost prev = r@;
            r.push(w);
            proof {
                lemma_word_views_push(prev, w);
                assert(word_views(prev).push(w@) =~~= r0 + block.take(t + 1));
            }
            t = t + 1;
        }
        proof {
            assert(block.take(sub@.len() as int) =~~= block);
            assert(words_from(alphabet@, length as nat, i as nat) == block + words_from(
                alphabet@,
                length as nat,
                (i + 1) as nat,
            ));
            assert(word_views(r@) + words_from(alphabet@, length as nat, (i + 1) as nat)
                =~~= words_from(alphabet@, length as nat, 0));
        }
        i = i + 1;
    }
    proof {
        assert(words_from(alphabet@, length as nat, alphabet@.len() as nat) =~~= Seq::<
            Seq<char>,
        >::empty());
        assert(word_views(r@) =~~= words_of(alphabet@, length as nat));
    }
    r
}

/// Cross-product words with first character at position `i` or later:
/// one block of `n^(k-1)` words for each remaining first position.
proof fn lemma_words_from_len(s: Seq<char>, k: nat, i: nat)
    requires
        1 <= k,
        i <= s.len(),
    ensures
        words_from(s, k, i).len() == (s.len() - i) * pow_count(s.len(), (k - 1) as nat),
    decreases k, 0nat, s.len() - i,
{
    let p = pow_count(s.len(), (k - 1) as nat);
    if i >= s.len() {
        assert((s.len() - i) * p == 0) by (nonlinear_arith)
            requires
                s.len() - i == 0,
        ;
    } else {
        lemma_words_len(s, (k - 1) as nat);
        lemma_words_from_len(s, k, i + 1);
        assert(words_from(s, k, i).len() == p + (s.len() - i - 1) * p);
        assert(p + (s.len() - i - 1) * p == (s.len() - i) * p) by (nonlinear_arith);
    }
}

/// The cross-product generator yields exactly `n^k` words.
pub proof fn lemma_words_len(s: Seq<char>, k: nat)
    ensures
        words_of(s, k).len() == pow_count(s.len(), k),
    decreases k, 1nat, 0nat,
{
    if k == 0 {
        assert(pow_count(s.len(), 0) == 1);
    } else {
        lemma_words_from_len(s, k, 0);
        assert(pow_count(s.len(), k) == s.len() * pow_count(s.len(), (k - 1) as nat));
    }
}

/// The concatenation, for each length of `[min, max]` in turn, of all
/// selections (`use_combinations`) or all arrangements of that length.
pub open spec fn ranged_of(s: Seq<char>, min: nat, max: nat, use_combinations: bool) -> Seq<
    Seq<char>,
>
    decreases max + 1 - min,
{
    if min > max {
        Seq::empty()
    } else {
        (if use_combinations {
            combs_of(s, min)
        } else {
            perms_of(s, min)
        }) + ranged_of(s, (min + 1) as nat, max, use_combinations)
    }
}

/// All arrangements (or selections) of every length in `[min, max]`,
/// shortest lengths first.
pub fn ranged(alphabet: &Vec<char>, min: usize, max: usize, use_combinations: bool) -> (r: Vec<
    Vec<char>,
>)
    ensures
        word_views(r@) == ranged_of(alphabet@, min as nat, max as nat, use_combinations),
{
    let mut r: Vec<Vec<char>> = Vec::new();
    if min > max {
        proof {
            assert(word_views(r@) =~~= ranged_of(
                alphabet@,
                min as nat,
                max as nat,
                use_combinations,
            ));
        }
        return r;
    }
    let mut len: usize = min;
    while len <= max
        invariant_except_break
            min <= len <= max,
            word_views(r@) + ranged_of(alphabet@, len as nat, max as nat, use_combinations)
                == ranged_of(alphabet@, min as nat, max as nat, use_combinations),
        ensures
            word_views(r@) == ranged_of(alphabet@, min as nat, max as nat, use_combinations),
        decreases max - len,
    {
        let block = if use_combinations {
            combinations(alphabet, len)
        } else {
            permutations(alphabet, len)
        };
        let ghost r0 = word_views(r@);
        let mut t: usize = 0;
        while t < block.len()
            invariant
                t <= block.len(),
                word_views(r@) == r0 + word_views(block@).take(t as int),
            decreases block.len() - t,
        {
            let w = copy_word(&block[t]);
            let ghost prev = r@;
            r.push(w);
            proof {
                lemma_word_views_push(prev, w);
                assert(word_views(prev).push(w@) =~~= r0 + word_views(block@).take(t + 1));
            }
            t = t + 1;
        }
        proof {
            assert(word_views(block@).take(block@.len() as int) =~~= word_views(block@));
            assert(ranged_of(alphabet@, len as nat, max as nat, use_combinations) == word_views(
                block@,
            ) + ranged_of(alphabet@, (len + 1) as nat, max as nat, use_combinations));
            assert(word_views(r@) + ranged_of(
                alphabet@,
                (len + 1) as nat,
                max as nat,
                use_combinations,
            ) =~~= ranged_of(alphabet@, min as nat, max as nat, use_combinations));
            if len == max {
                assert(ranged_of(alphabet@, (len + 1) as nat, max as nat, use_combinations)
                    =~~= Seq::<Seq<char>>::empty());
                assert(word_views(r@) =~~= ranged_of(
                    alphabet@,
                    min as nat,
                    max as nat,
                    use_combinations,
                ));
            }
        }
        if len == max {
            break ;
        }
        len = len + 1;
    }
    r
}

/// Counting without enumerating agrees with enumerating and counting:
/// the ranged generator yields exactly the closed-form range total of
/// words, for every alphabet, range and mode.
pub proof fn lemma_ranged_len(s: Seq<char>, min: nat, max: nat, use_combinations: bool)
    ensures
        ranged_of(s, min, max, use_combinations).len() == range_total(
            s.len(),
            min,
            max,
            use_combinations,
        ),
    decreases max + 1 - min,
{
    if min <= max {
        if use_combinations {
            lemma_combs_len(s, min);
        } else {
            lemma_perms_len(s, min);
        }
        lemma_ranged_len(s, (min + 1) as nat, max, use_combinations);
    }
}

/// The word list with every repeated value dropped: the first occurrence
/// of each word is kept, in place; later equal words are left out.
pub open spec fn dedup_of(ws: Seq<Seq<char>>) -> Seq<Seq<char>>
    decreases ws.len(),
{
    if ws.len() == 0 {
        Seq::empty()
    } else {
        let rest = dedup_of(ws.drop_last());
        if ws.drop_last().contains(ws.last()) {
            rest
        } else {
            rest.push(ws.last())
        }
    }
}

/// Deduplication keeps exactly the word values of the original list.
proof fn lemma_dedup_contains(ws: Seq<Seq<char>>, x: Seq<char>)
    ensures
        dedup_of(ws).contains(x) <==> ws.contains(x),
    decreases ws.len(),
{
    if ws.len() > 0 {
        let front = ws.drop_last();
        lemma_dedup_contains(front, x);
        if ws.contains(x) {
            let i = choose|i: int| 0 <= i < ws.len() && ws[i] == x;
            if i < ws.len() - 1 {
                assert(front[i] == x);
                assert(front.contains(x));
            }
            if front.contains(x) {
                let j = choose|j: int| 0 <= j < front.len() && front[j] == x;
                if !(dedup_of(ws) == dedup_of(front)) {
                    assert(dedup_of(ws) == dedup_of(front).push(ws.last()));
                    let t = choose|t: int| 0 <= t < dedup_of(front).len() && dedup_of(front)[t]
                        == x;
                    assert(dedup_of(ws)[t] == x);
                }
            } else {
                assert(ws.last() == x);
                assert(dedup_of(ws) == dedup_of(front).push(ws.last()));
                assert(dedup_of(ws).last() == x);
            }
            assert(dedup_of(ws).contains(x));
        }
        if dedup_of(ws).contains(x) {
            let i = choose|i: int| 0 <= i < dedup_of(ws).len() && dedup_of(ws)[i] == x;
            if ws.drop_last().contains(ws.last()) {
                assert(dedup_of(front)[i] == x);
                let j = choose|j: int| 0 <= j < front.len() && front[j] == x;
                assert(ws[j] == x);
            } else {
                if i < dedup_of(ws).len() - 1 {
                    assert(dedup_of(front)[i] == x);
                    let j = choose|j: int| 0 <= j < front.len() && front[j] == x;
                    assert(ws[j] == x);
                } else {
                    assert(ws.last() == x);
                    assert(ws[ws.len() - 1] == x);
                }
            }
            assert(ws.contains(x));
        }
    }
}

/// Whether two words hold the same characters.
pub fn words_equal(a: &Vec<char>, b: &Vec<char>) -> (r: bool)
    ensures
        r == (a@ == b@),
{
    if a.len() != b.len() {
        return false;
    }
    let mut j: usize = 0;
    while j < a.len()
        invariant
            j <= a.len(),
            a@.len() == b@.len(),
            forall|t: int| 0 <= t < j ==> a@[t] == b@[t],
        decreases a.len() - j,
    {
        if a[j] != b[j] {
            return false;
        }
        j = j + 1;
    }
    proof {
        assert(a@ =~= b@);
    }
    true
}

/// Whether the list already holds a word with these characters.
pub fn contains_word(list: &Vec<Vec<char>>, w: &Vec<char>) -> (b: bool)
    ensures
        b == word_views(list@).contains(w@),
{
    let mut i: usize = 0;
    while i < list.len()
        invariant
            i <= list.len(),
            forall|t: int| 0 <= t < i ==> word_views(list@)[t] != w@,
        decreases list.len() - i,
    {
        if words_equal(&list[i], w) {
            proof {
                assert(word_views(list@)[i as int] == w@);
            }
            return true;
        }
        i = i + 1;
    }
    proof {
        assert(!word_views(list@).contains(w@)) by {
            if word_views(list@).contains(w@) {
                let t = choose|t: int|
                    0 <= t < word_views(list@).len() && word_views(list@)[t] == w@;
                assert(false);
            }
        }
    }
    false
}

/// Every arrangement of each length in `[min, max]`, with any word equal
/// in content to an earlier one suppressed: the first occurrence wins and
/// later duplicates are dropped.
pub fn unique_words(alphabet: &Vec<char>, min: usize, max: usize) -> (r: Vec<Vec<char>>)
    ensures
        word_views(r@) == dedup_of(ranged_of(alphabet@, min as nat, max as nat, false)),
{
    let all = ranged(alphabet, min, max, false);
    let ghost allv = word_views(all@);
    let mut r: Vec<Vec<char>> = Vec::new();
    let mut idx: usize = 0;
    while idx < all.len()
        invariant
            idx <= all.len(),
            allv == word_views(all@),
            allv == ranged_of(alphabet@, min as nat, max as nat, false),
            word_views(r@) == dedup_of(allv.take(idx as int)),
        decreases all.len() - idx,
    {
        proof {
            assert(allv.take(idx + 1).drop_last() =~~= allv.take(idx as int));
            assert(allv.take(idx + 1).last() == allv[idx as int]);
            lemma_dedup_contains(allv.take(idx as int), allv[idx as int]);
        }
        if contains_word(&r, &all[idx]) {
            proof {
                assert(dedup_of(allv.take(idx + 1)) == dedup_of(allv.take(idx as int)));
            }
        } else {
            let w = copy_word(&all[idx]);
            let ghost prev = r@;
            r.push(w);
            proof {
                lemma_word_views_push(prev, w);
                assert(dedup_of(allv.take(idx + 1)) == dedup_of(allv.take(idx as int)).push(
                    allv[idx as int],
                ));
            }
        }
        idx = idx + 1;
    }
    proof {
        assert(allv.take(all@.len() as int) =~~= allv);
    }
    r
}

} // verus!
