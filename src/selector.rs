use vstd::prelude::*;
use vstd::string::StringExecFns;

use crate::comparison::{compare, decimal, dl_distance, WordScore};
use crate::word_list::WordList;

verus! {

/// A scored candidate as the contracts see it.
pub struct Scored {
    pub word: Seq<char>,
    pub score: nat,
    pub list_index: nat,
}

/// A candidate word with its score and the index of the list it came from.
#[derive(Debug)]
pub struct WordData {
    pub word: String,
    pub score: WordScore,
    pub list_index: usize,
}

impl View for WordData {
    type V = Scored;

    open spec fn view(&self) -> Scored {
        Scored { word: self.word@, score: self.score.0 as nat, list_index: self.list_index as nat }
    }
}

/// The text between a score and the name of its dictionary.
pub open spec fn separator() -> Seq<char> {
    seq![' ', ' ', ' ', '•', ' ', ' ', ' ']
}

impl WordData {
    /// The result line for this candidate: its word, and as description its
    /// score and the name of the dictionary it came from.
    pub fn send(self, lists: &Vec<WordList>) -> (r: (String, String))
        requires
            self.list_index < lists@.len(),
        ensures
            r.0@ == self.word@,
            r.1@ == seq!['Δ', ' ', '=', ' '] + decimal(self.score.0 as nat) + separator()
                + lists@[self.list_index as int]@.name,
    {
        let language = lists[self.list_index].name();
        let mut description = self.score.to_text();
        description.append("   •   ");
        description.append(language);
        proof {
            reveal_strlit("   •   ");
        }
        (self.word, description)
    }
}

/// The views of a sequence of candidates.
pub open spec fn scored_view(v: Seq<WordData>) -> Seq<Scored> {
    v.map_values(|c: WordData| c@)
}

/// `c` placed after every entry of `r` whose score is not above its own.
pub open spec fn insert_sorted(r: Seq<Scored>, c: Scored) -> Seq<Scored>
    decreases r.len(),
{
    if r.len() == 0 {
        seq![c]
    } else if c.score < r[0].score {
        seq![c] + r
    } else {
        seq![r[0]] + insert_sorted(r.drop_first(), c)
    }
}

/// Some entry of `r` has the word `w`.
pub open spec fn holds_word(r: Seq<Scored>, w: Seq<char>) -> bool {
    exists|i: int| 0 <= i < r.len() && r[i].word == w
}

/// The result set after the candidate `c` is offered to `r`, of capacity `k`.
pub open spec fn offer(r: Seq<Scored>, c: Scored, k: nat) -> Seq<Scored> {
    if holds_word(r, c.word) {
        r
    } else if r.len() < k {
        insert_sorted(r, c)
    } else if r.len() > 0 && c.score < r.last().score {
        insert_sorted(r, c).drop_last()
    } else {
        r
    }
}

/// The result set after every candidate of `s` has been offered in order.
pub open spec fn select_spec(s: Seq<Scored>, k: nat) -> Seq<Scored>
    decreases s.len(),
{
    if s.len() == 0 {
        seq![]
    } else {
        offer(select_spec(s.drop_last(), k), s.last(), k)
    }
}

/// Scores ascend, ties allowed.
pub open spec fn sorted_by_score(r: Seq<Scored>) -> bool {
    forall|i: int, j: int| 0 <= i < j < r.len() ==> r[i].score <= r[j].score
}

/// The candidates of one dictionary's words, scored against `reference`.
pub open spec fn list_stream(words: Seq<Seq<char>>, reference: Seq<char>, index: nat) -> Seq<Scored> {
    words.map_values(|w: Seq<char>| Scored { word: w, score: dl_distance(w, reference), list_index: index })
}

/// The candidates of all dictionaries, one after another.
pub open spec fn stream(lists: Seq<Seq<Seq<char>>>, reference: Seq<char>) -> Seq<Scored>
    decreases lists.len(),
{
    if lists.len() == 0 {
        seq![]
    } else {
        stream(lists.drop_last(), reference) + list_stream(lists.last(), reference, (lists.len() - 1) as nat)
    }
}

/// The word sequences of the dictionaries.
pub open spec fn lists_words(lists: Seq<WordList>) -> Seq<Seq<Seq<char>>> {
    lists.map_values(|l: WordList| l@.words)
}

proof fn lemma_insert_at(r: Seq<Scored>, c: Scored, p: int)
    requires
        0 <= p <= r.len(),
        forall|i: int| 0 <= i < p ==> r[i].score <= c.score,
        forall|i: int| p <= i < r.len() ==> r[i].score > c.score,
    ensures
        insert_sorted(r, c) == r.insert(p, c),
    decreases r.len(),
{
    if r.len() == 0 {
        assert(r.insert(p, c) =~= seq![c]);
    } else if c.score < r[0].score {
        assert(r.insert(p, c) =~= seq![c] + r);
    } else {
        lemma_insert_at(r.drop_first(), c, p - 1);
        assert(r.insert(p, c) =~= seq![r[0]] + r.drop_first().insert(p - 1, c));
    }
}

proof fn lemma_select_push(s: Seq<Scored>, c: Scored, k: nat)
    ensures
        select_spec(s.push(c), k) == offer(select_spec(s, k), c, k),
{
    assert(s.push(c).drop_last() =~= s);
}

/// A bounded result set: sorted by score, capacity fixed at creation.
pub struct ResultSet {
    entries: Vec<WordData>,
    capacity: usize,
}

impl ResultSet {
    pub closed spec fn view(&self) -> Seq<Scored> {
        scored_view(self.entries@)
    }

    pub closed spec fn capacity_spec(&self) -> nat {
        self.capacity as nat
    }

    /// Entries ascend by score and never exceed the capacity.
    pub closed spec fn wf(&self) -> bool {
        sorted_by_score(self.view()) && self.view().len() <= self.capacity_spec()
    }

    /// An empty set that keeps at most `capacity` candidates.
    pub fn new(capacity: usize) -> (r: ResultSet)
        ensures
            r.wf(),
            r.view() == Seq::<Scored>::empty(),
            r.capacity_spec() == capacity,
    {
        let r = ResultSet { entries: Vec::new(), capacity };
        assert(r.view() =~= Seq::<Scored>::empty());
        r
    }

    /// Offers a candidate; it is kept where the selection rules admit it.
    pub fn offer(&mut self, word: &String, score: WordScore, list_index: usize)
        requires
            old(self).wf(),
        ensures
            final(self).wf(),
            final(self).view() == offer(
                old(self).view(),
                Scored { word: word@, score: score.0 as nat, list_index: list_index as nat },
                old(self).capacity_spec(),
            ),
            final(self).capacity_spec() == old(self).capacity_spec(),
    {
        let ghost c = Scored { word: word@, score: score.0 as nat, list_index: list_index as nat };
        let ghost r = self.view();
        let n = self.entries.len();
        let mut pos: usize = n;
        let mut i: usize = 0;
        while i < n
            invariant
                n == self.entries.len(),
                r == self.view(),
                self.wf(),
                r.len() == n,
                c == (Scored { word: word@, score: score.0 as nat, list_index: list_index as nat }),
                i <= n,
                pos == n || pos < i,
                forall|j: int| 0 <= j < i ==> r[j].word != c.word,
                pos == n ==> forall|j: int| 0 <= j < i ==> r[j].score <= c.score,
                pos < n ==> forall|j: int| 0 <= j < pos ==> r[j].score <= c.score,
                pos < n ==> r[pos as int].score > c.score,
            decreases n - i,
        {
            assert(r[i as int] == self.entries@[i as int]@);
            if self.entries[i].word.eq(word) {
                assert(holds_word(r, c.word));
                return;
            }
            if pos == n && score.0 < self.entries[i].score.0 {
                pos = i;
            }
            i = i + 1;
        }
        assert(!holds_word(r, c.word));
        assert(n > 0 ==> r[n - 1] == self.entries@[n - 1]@);
        if n < self.capacity || (n > 0 && score.0 < self.entries[n - 1].score.0) {
            proof {
                assert forall|j: int| pos <= j < n implies r[j].score > c.score by {
                    if pos < n {
                        assert(r[pos as int].score <= r[j].score);
                    }
                }
                lemma_insert_at(r, c, pos as int);
            }
            let d = WordData { word: word.clone(), score, list_index };
            self.entries.insert(pos, d);
            assert(self.view() =~= r.insert(pos as int, c));
            if n >= self.capacity {
                self.entries.pop();
                assert(self.view() =~= r.insert(pos as int, c).drop_last());
            }
        }
    }

    /// The kept candidates, in ascending order of score.
    pub fn into_vec(self) -> (r: Vec<WordData>)
        requires
            self.wf(),
        ensures
            scored_view(r@) == self.view(),
    {
        self.entries
    }
}

/// Keeps the `k` best candidates of `candidates`, offered in order: ascending
/// by score, the first-seen of equal scores first, and no word twice.
pub fn select(candidates: &Vec<WordData>, k: usize) -> (r: Vec<WordData>)
    ensures
        scored_view(r@) == select_spec(scored_view(candidates@), k as nat),
{
    let ghost s = scored_view(candidates@);
    let mut set = ResultSet::new(k);
    let mut i: usize = 0;
    while i < candidates.len()
        invariant
            s == scored_view(candidates@),
            i <= candidates.len(),
            set.wf(),
            set.capacity_spec() == k,
            set.view() == select_spec(s.take(i as int), k as nat),
        decreases candidates.len() - i,
    {
        let c = &candidates[i];
        proof {
            lemma_select_push(s.take(i as int), s[i as int], k as nat);
            assert(s.take(i as int).push(s[i as int]) =~= s.take(i + 1));
        }
        set.offer(&c.word, c.score, c.list_index);
        i = i + 1;
    }
    assert(s.take(i as int) =~= s);
    set.into_vec()
}

/// Keeps the `k` words of `lists` closest to `reference`: every word of every
/// list is scored and offered in order, lists first to last.
pub fn top_matches(lists: &Vec<WordList>, reference: &str, k: usize) -> (r: Vec<WordData>)
    ensures
        scored_view(r@) == select_spec(stream(lists_words(lists@), reference@), k as nat),
{
    let ghost ls = lists_words(lists@);
    let mut set = ResultSet::new(k);
    let mut li: usize = 0;
    while li < lists.len()
        invariant
            ls == lists_words(lists@),
            li <= lists.len(),
            set.wf(),
            set.capacity_spec() == k,
            set.view() == select_spec(stream(ls.take(li as int), reference@), k as nat),
        decreases lists.len() - li,
    {
        let words = lists[li].iter();
        let ghost ws = ls[li as int];
        let ghost before = stream(ls.take(li as int), reference@);
        assert(words@.map_values(|w: String| w@) == ws);
        let mut wi: usize = 0;
        while wi < words.len()
            invariant
                ls == lists_words(lists@),
                li < lists.len(),
                ws == ls[li as int],
                words@.map_values(|w: String| w@) == ws,
                before == stream(ls.take(li as int), reference@),
                wi <= words.len(),
                set.wf(),
                set.capacity_spec() == k,
                set.view() == select_spec(
                    before + list_stream(ws.take(wi as int), reference@, li as nat),
                    k as nat,
                ),
            decreases words.len() - wi,
        {
            let w = &words[wi];
            let score = compare(w.as_str(), reference);
            proof {
                let prev = before + list_stream(ws.take(wi as int), reference@, li as nat);
                let c = Scored { word: w@, score: score.0 as nat, list_index: li as nat };
                assert(ws[wi as int] == w@);
                lemma_select_push(prev, c, k as nat);
                assert(prev.push(c) =~= before + list_stream(ws.take(wi + 1), reference@, li as nat));
            }
            set.offer(w, score, li);
            wi = wi + 1;
        }
        proof {
            assert(ws.take(wi as int) =~= ws);
            let next = ls.take(li + 1);
            assert(next.drop_last() =~= ls.take(li as int));
            assert(stream(next, reference@) == before + list_stream(ws, reference@, li as nat));
        }
        li = li + 1;
    }
    assert(ls.take(li as int) =~= ls);
    set.into_vec()
}

/// Where `c` goes in `r`: after the leading entries whose score is not above its own.
pub open spec fn insert_pos(r: Seq<Scored>, c: Scored) -> nat
    decreases r.len(),
{
    if r.len() == 0 || c.score < r[0].score {
        0
    } else {
        1 + insert_pos(r.drop_first(), c)
    }
}

/// No two entries share their word.
pub open spec fn distinct_words(r: Seq<Scored>) -> bool {
    forall|i: int, j: int| 0 <= i < j < r.len() ==> r[i].word != r[j].word
}

/// The set of words among the candidates.
pub open spec fn word_set(s: Seq<Scored>) -> Set<Seq<char>> {
    s.map_values(|c: Scored| c.word).to_set()
}

/// `x` occurs in `s` before `y` does.
pub open spec fn comes_before(s: Seq<Scored>, x: Scored, y: Scored) -> bool {
    exists|a: int, b: int| 0 <= a < b < s.len() && s[a] == x && s[b] == y
}

/// Entries of equal score stand in the order in which they were offered.
pub open spec fn ties_in_stream_order(s: Seq<Scored>, r: Seq<Scored>) -> bool {
    forall|i: int, j: int| 0 <= i < j < r.len() && r[i].score == r[j].score
        ==> comes_before(s, #[trigger] r[i], #[trigger] r[j])
}

proof fn lemma_insert_pos(r: Seq<Scored>, c: Scored)
    ensures
        insert_pos(r, c) <= r.len(),
        insert_sorted(r, c) == r.insert(insert_pos(r, c) as int, c),
        forall|i: int| 0 <= i < insert_pos(r, c) ==> r[i].score <= c.score,
        sorted_by_score(r) ==> forall|i: int| insert_pos(r, c) <= i < r.len() ==> r[i].score > c.score,
    decreases r.len(),
{
    if r.len() == 0 {
        assert(r.insert(0, c) =~= seq![c]);
    } else if c.score < r[0].score {
        assert(r.insert(0, c) =~= seq![c] + r);
    } else {
        let t = r.drop_first();
        lemma_insert_pos(t, c);
        let p = insert_pos(r, c) as int;
        assert(r.insert(p, c) =~= seq![r[0]] + t.insert(p - 1, c));
        assert forall|i: int| 0 <= i < p implies r[i].score <= c.score by {
            if i > 0 {
                assert(r[i] == t[i - 1]);
            }
        }
        if sorted_by_score(r) {
            assert(sorted_by_score(t)) by {
                assert forall|i: int, j: int| 0 <= i < j < t.len() implies t[i].score <= t[j].score by {
                    assert(t[i] == r[i + 1] && t[j] == r[j + 1]);
                }
            }
            assert forall|i: int| p <= i < r.len() implies r[i].score > c.score by {
                assert(r[i] == t[i - 1]);
            }
        }
    }
}

proof fn lemma_word_set(s: Seq<Scored>, w: Seq<char>)
    ensures
        word_set(s).contains(w) <==> holds_word(s, w),
        word_set(s).finite(),
{
    let m = s.map_values(|c: Scored| c.word);
    vstd::seq_lib::seq_to_set_is_finite(m);
    if holds_word(s, w) {
        let i = choose|i: int| 0 <= i < s.len() && s[i].word == w;
        assert(m[i] == w);
        assert(m.contains(w));
    }
    if word_set(s).contains(w) {
        assert(m.contains(w));
        let i = choose|i: int| 0 <= i < m.len() && m[i] == w;
        assert(s[i].word == w);
    }
}

proof fn lemma_word_set_len(r: Seq<Scored>)
    requires
        distinct_words(r),
    ensures
        word_set(r).len() == r.len(),
{
    let m = r.map_values(|c: Scored| c.word);
    assert(m.no_duplicates()) by {
        assert forall|i: int, j: int| 0 <= i < m.len() && 0 <= j < m.len() && i != j implies m[i] != m[j] by {
            if i < j {
                assert(r[i].word != r[j].word);
            } else {
                assert(r[j].word != r[i].word);
            }
        }
    }
    m.unique_seq_to_set();
}

/// What holds of the selection after each candidate: sorted, no word twice,
/// within capacity, only words of the stream, and every word of the stream
/// while below capacity.
proof fn lemma_select_inv(s: Seq<Scored>, k: nat)
    ensures
        sorted_by_score(select_spec(s, k)),
        distinct_words(select_spec(s, k)),
        select_spec(s, k).len() <= k,
        word_set(select_spec(s, k)).subset_of(word_set(s)),
        select_spec(s, k).len() < k ==> word_set(select_spec(s, k)) == word_set(s),
        forall|i: int| 0 <= i < select_spec(s, k).len() ==> s.contains(#[trigger] select_spec(s, k)[i]),
        ties_in_stream_order(s, select_spec(s, k)),
    decreases s.len(),
{
    let r = select_spec(s, k);
    if s.len() == 0 {
        assert(word_set(r) =~= word_set(s)) by {
            assert forall|w: Seq<char>| word_set(r).contains(w) <==> word_set(s).contains(w) by {
                lemma_word_set(r, w);
                lemma_word_set(s, w);
            }
        }
    } else {
        let pre = s.drop_last();
        let c = s.last();
        let q = select_spec(pre, k);
        lemma_select_inv(pre, k);
        assert forall|w: Seq<char>| #[trigger] word_set(s).contains(w) <==> (word_set(pre).contains(w) || w == c.word) by {
            lemma_word_set(s, w);
            lemma_word_set(pre, w);
            if holds_word(s, w) && w != c.word {
                let i = choose|i: int| 0 <= i < s.len() && s[i].word == w;
                assert(pre[i].word == w);
            }
            if holds_word(pre, w) {
                let i = choose|i: int| 0 <= i < pre.len() && pre[i].word == w;
                assert(s[i].word == w);
            }
            if w == c.word {
                assert(s[s.len() - 1].word == w);
            }
        }
        assert forall|x: Scored| pre.contains(x) implies s.contains(x) by {
            let i = choose|i: int| 0 <= i < pre.len() && pre[i] == x;
            assert(s[i] == x);
        }
        assert(s.contains(c)) by {
            assert(s[s.len() - 1] == c);
        }
        assert forall|x: Scored, y: Scored| comes_before(pre, x, y) implies comes_before(s, x, y) by {
            let (a, b) = choose|a: int, b: int| 0 <= a < b < pre.len() && pre[a] == x && pre[b] == y;
            assert(s[a] == x && s[b] == y);
        }
        assert forall|x: Scored| pre.contains(x) implies comes_before(s, x, c) by {
            let a = choose|a: int| 0 <= a < pre.len() && pre[a] == x;
            assert(s[a] == x && s[s.len() - 1] == c);
        }
        assert(ties_in_stream_order(s, q)) by {
            assert forall|i: int, j: int| 0 <= i < j < q.len() && q[i].score == q[j].score
                implies comes_before(s, #[trigger] q[i], #[trigger] q[j]) by {
                assert(comes_before(pre, q[i], q[j]));
            }
        }
        if holds_word(q, c.word) {
            assert(r == q);
            assert forall|w: Seq<char>| word_set(r).contains(w) implies word_set(s).contains(w) by {
                lemma_word_set(q, w);
                lemma_word_set(pre, w);
            }
            if r.len() < k {
                assert(word_set(r) =~= word_set(s)) by {
                    assert forall|w: Seq<char>| word_set(s).contains(w) implies word_set(r).contains(w) by {
                        lemma_word_set(q, w);
                        lemma_word_set(q, c.word);
                    }
                }
            }
        } else if q.len() < k || (q.len() > 0 && c.score < q.last().score) {
            lemma_insert_pos(q, c);
            let p = insert_pos(q, c) as int;
            let ins = q.insert(p, c);
            assert(ins.len() == q.len() + 1);
            assert forall|i: int| 0 <= i < ins.len() implies #[trigger] ins[i] == (if i < p {
                q[i]
            } else if i == p {
                c
            } else {
                q[i - 1]
            }) by {}
            assert(sorted_by_score(ins)) by {
                assert forall|i: int, j: int| 0 <= i < j < ins.len() implies ins[i].score <= ins[j].score by {
                    assert(ins[i] == (if i < p { q[i] } else if i == p { c } else { q[i - 1] }));
                    assert(ins[j] == (if j < p { q[j] } else if j == p { c } else { q[j - 1] }));
                }
            }
            assert(distinct_words(ins)) by {
                assert forall|i: int, j: int| 0 <= i < j < ins.len() implies ins[i].word != ins[j].word by {
                    assert(ins[i] == (if i < p { q[i] } else if i == p { c } else { q[i - 1] }));
                    assert(ins[j] == (if j < p { q[j] } else if j == p { c } else { q[j - 1] }));
                    if i == p {
                        assert(!(q[j - 1].word == c.word));
                    } else if j == p {
                        assert(!(q[i].word == c.word));
                    }
                }
            }
            assert forall|w: Seq<char>| word_set(ins).contains(w) <==> (word_set(q).contains(w) || w == c.word) by {
                lemma_word_set(ins, w);
                lemma_word_set(q, w);
                if holds_word(ins, w) && w != c.word {
                    let i = choose|i: int| 0 <= i < ins.len() && ins[i].word == w;
                    assert(ins[i] == (if i < p { q[i] } else if i == p { c } else { q[i - 1] }));
                }
                if holds_word(q, w) {
                    let i = choose|i: int| 0 <= i < q.len() && q[i].word == w;
                    if i < p {
                        assert(ins[i] == q[i]);
                    } else {
                        assert(ins[i + 1] == q[i]);
                    }
                }
                if w == c.word {
                    assert(ins[p] == c);
                }
            }
            assert forall|i: int| 0 <= i < ins.len() implies s.contains(ins[i]) by {
                assert(ins[i] == (if i < p { q[i] } else if i == p { c } else { q[i - 1] }));
                if i < p {
                    assert(pre.contains(q[i]));
                } else if i > p {
                    assert(pre.contains(q[i - 1]));
                }
            }
            assert(ties_in_stream_order(s, ins)) by {
                assert forall|i: int, j: int| 0 <= i < j < ins.len() && ins[i].score == ins[j].score
                    implies comes_before(s, #[trigger] ins[i], #[trigger] ins[j]) by {
                    assert(ins[i] == (if i < p { q[i] } else if i == p { c } else { q[i - 1] }));
                    assert(ins[j] == (if j < p { q[j] } else if j == p { c } else { q[j - 1] }));
                    if j == p {
                        assert(pre.contains(q[i]));
                    } else if i == p {
                        assert(q[j - 1].score > c.score);
                    } else {
                        let i2 = if i < p { i } else { i - 1 };
                        let j2 = if j < p { j } else { j - 1 };
                        assert(q[i2] == ins[i] && q[j2] == ins[j]);
                        assert(comes_before(pre, q[i2], q[j2]));
                    }
                }
            }
            if q.len() < k {
                assert(r == ins);
                if r.len() < k {
                    assert(word_set(r) =~= word_set(s));
                }
            } else {
                assert(r == ins.drop_last());
                assert forall|i: int| 0 <= i < r.len() implies s.contains(r[i]) by {
                    assert(r[i] == ins[i]);
                }
                assert forall|i: int, j: int| 0 <= i < j < r.len() && r[i].score == r[j].score
                    implies comes_before(s, #[trigger] r[i], #[trigger] r[j]) by {
                    assert(r[i] == ins[i] && r[j] == ins[j]);
                }
                assert forall|w: Seq<char>| word_set(r).contains(w) implies word_set(s).contains(w) by {
                    lemma_word_set(r, w);
                    lemma_word_set(ins, w);
                    let i = choose|i: int| 0 <= i < r.len() && r[i].word == w;
                    assert(ins[i].word == w);
                }
            }
        } else {
            assert(r == q);
        }
    }
}

/// The selection keeps `min(k, d)` candidates, where `d` is the number of
/// distinct words in the stream; they ascend by score, ties allowed, and no
/// word appears twice, whatever dictionaries the candidates came from.
pub proof fn lemma_selection_shape(s: Seq<Scored>, k: nat)
    ensures
        select_spec(s, k).len() == if k < word_set(s).len() { k } else { word_set(s).len() },
        sorted_by_score(select_spec(s, k)),
        distinct_words(select_spec(s, k)),
{
    let r = select_spec(s, k);
    lemma_select_inv(s, k);
    lemma_word_set_len(r);
    lemma_word_set(s, seq![]);
    vstd::set_lib::lemma_len_subset(word_set(r), word_set(s));
}

/// Where distinct words of the stream never share a score, the selection
/// ascends strictly by score.
pub proof fn lemma_selection_strictly_sorted(s: Seq<Scored>, k: nat)
    requires
        forall|i: int, j: int| 0 <= i < s.len() && 0 <= j < s.len() && s[i].word != s[j].word
            ==> s[i].score != s[j].score,
    ensures
        forall|i: int, j: int| 0 <= i < j < select_spec(s, k).len()
            ==> select_spec(s, k)[i].score < select_spec(s, k)[j].score,
{
    let r = select_spec(s, k);
    lemma_select_inv(s, k);
    assert forall|i: int, j: int| 0 <= i < j < r.len() implies r[i].score < r[j].score by {
        assert(s.contains(r[i]) && s.contains(r[j]));
        let a = choose|a: int| 0 <= a < s.len() && s[a] == r[i];
        let b = choose|b: int| 0 <= b < s.len() && s[b] == r[j];
        assert(r[i].word != r[j].word);
        assert(s[a].score != s[b].score);
    }
}

/// The same stream and capacity always give the same selection, in the same
/// order: of two kept candidates with equal scores, the one offered first
/// stands first.
pub proof fn lemma_selection_deterministic(s1: Seq<Scored>, s2: Seq<Scored>, k: nat)
    requires
        s1 == s2,
    ensures
        select_spec(s1, k) == select_spec(s2, k),
        ties_in_stream_order(s1, select_spec(s1, k)),
{
    lemma_select_inv(s1, k);
}

} // verus!
