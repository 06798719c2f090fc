use vstd::prelude::*;
use vstd::std_specs::iter::IteratorSpec;
use vstd::seq_lib::lemma_flatten_concat;
use vstd::string::StringExecFns;

use crate::comparison::{decimal, decimal_string};
use vstd::utf8::{decode_utf8, valid_utf8};

verus! {

/// The lower-case form of a string, as `str::to_lowercase` gives it.
pub uninterp spec fn lower_of(s: Seq<char>) -> Seq<char>;

/// Relies on `str::to_lowercase`: the result depends on the characters alone.
#[verifier::external_body]
pub(crate) fn lowercase(s: &str) -> (r: String)
    ensures
        r@ == lower_of(s@),
{
    s.to_lowercase()
}

/// Relies on `String::from_utf8`: it succeeds exactly on well-formed UTF-8,
/// and then holds the characters that the bytes encode.
#[verifier::external_body]
fn decode(bytes: Vec<u8>) -> (r: Option<String>)
    ensures
        r is Some <==> valid_utf8(bytes@),
        r matches Some(t) ==> t@ == decode_utf8(bytes@),
{
    String::from_utf8(bytes).ok()
}

/// Relies on `String`'s `FromIterator<char>`: the string of these characters.
#[verifier::external_body]
pub(crate) fn string_of(chars: &Vec<char>) -> (r: String)
    ensures
        r@ == chars@,
{
    chars.iter().collect()
}

/// Why a word list could not be loaded.
#[derive(Debug)]
pub enum LoadError {
    /// The configuration is missing or malformed.
    Configuration { detail: String },
    /// A word-list file could not be opened.
    Open { name: String, detail: String },
    /// A word-list file could not be read.
    Read { name: String, detail: String },
    /// No `---` line closes the header of a word-list file.
    Format { name: String },
    /// The body of a word-list file is not UTF-8.
    Encoding { name: String },
}

/// The lines of `s`, split at each line feed; the last one may be empty.
pub open spec fn split_lines(s: Seq<char>) -> Seq<Seq<char>>
    decreases s.len(),
{
    if s.len() == 0 {
        seq![Seq::<char>::empty()]
    } else {
        let l = split_lines(s.drop_last());
        if s.last() == '\n' {
            l.push(Seq::<char>::empty())
        } else {
            l.update(l.len() - 1, l.last().push(s.last()))
        }
    }
}

/// A line without the carriage return that may end it.
pub open spec fn strip_cr(l: Seq<char>) -> Seq<char> {
    if l.len() > 0 && l.last() == '\r' {
        l.drop_last()
    } else {
        l
    }
}

/// The non-empty lines, carriage returns stripped, in order.
pub open spec fn keep_words(lines: Seq<Seq<char>>) -> Seq<Seq<char>>
    decreases lines.len(),
{
    if lines.len() == 0 {
        Seq::<Seq<char>>::empty()
    } else {
        let w = keep_words(lines.drop_last());
        let l = strip_cr(lines.last());
        if l.len() > 0 {
            w.push(l)
        } else {
            w
        }
    }
}

/// The words of a word-list body: its lower-case form's non-empty lines.
pub open spec fn body_words(text: Seq<char>) -> Seq<Seq<char>> {
    keep_words(split_lines(lower_of(text)))
}

/// The bytes of the chunks, one after another.
pub open spec fn concat_chunks(chunks: Seq<Vec<u8>>) -> Seq<u8> {
    chunks.map_values(|c: Vec<u8>| c@).flatten()
}

proof fn lemma_split_lines_len(s: Seq<char>)
    ensures
        split_lines(s).len() >= 1,
    decreases s.len(),
{
    if s.len() > 0 {
        lemma_split_lines_len(s.drop_last());
    }
}

/// A dictionary as the contracts see it: its display name and its words.
pub struct Dictionary {
    pub name: Seq<char>,
    pub words: Seq<Seq<char>>,
}

/// A named, immutable word list: lower-cased, non-empty words in file order.
#[derive(Debug)]
pub struct WordList {
    name: String,
    words: Vec<String>,
}

impl View for WordList {
    type V = Dictionary;

    closed spec fn view(&self) -> Dictionary {
        Dictionary { name: self.name@, words: self.words@.map_values(|w: String| w@) }
    }
}

impl WordList {
    /// The words of the list, in file order.
    pub fn iter(&self) -> (r: &Vec<String>)
        ensures
            r@.map_values(|w: String| w@) == self@.words,
    {
        &self.words
    }

    /// The display name of the list.
    pub fn name(&self) -> (r: &str)
        ensures
            r@ == self@.name,
    {
        self.name.as_str()
    }

    /// The number of words in the list.
    pub fn len(&self) -> (r: usize)
        ensures
            r == self@.words.len(),
    {
        self.words.len()
    }
}

/// The number of dash bytes that end `b`.
pub open spec fn trailing_dashes(b: Seq<u8>) -> nat
    decreases b.len(),
{
    if b.len() == 0 || b.last() != 45u8 {
        0
    } else {
        1 + trailing_dashes(b.drop_last())
    }
}

/// Byte `i` of `b` is a line feed right after three dashes.
pub open spec fn closes_header(b: Seq<u8>, i: int) -> bool {
    &&& 3 <= i < b.len()
    &&& b[i - 3] == 45u8 && b[i - 2] == 45u8 && b[i - 1] == 45u8
    &&& b[i] == 10u8
}

/// The position of the first line feed of `b` that closes the header.
pub open spec fn header_end(b: Seq<u8>) -> Option<nat>
    decreases b.len(),
{
    if b.len() == 0 {
        None
    } else {
        match header_end(b.drop_last()) {
            Some(i) => Some(i),
            None => if closes_header(b, b.len() - 1) {
                Some((b.len() - 1) as nat)
            } else {
                None
            },
        }
    }
}

proof fn lemma_trailing_push(b: Seq<u8>, x: u8)
    ensures
        trailing_dashes(b.push(x)) == if x == 45u8 { trailing_dashes(b) + 1 } else { 0 },
        trailing_dashes(b) >= 3 <==> (b.len() >= 3 && b[b.len() - 3] == 45u8 && b[b.len() - 2]
            == 45u8 && b[b.len() - 1] == 45u8),
{
    reveal_with_fuel(trailing_dashes, 4);
    assert(b.push(x).drop_last() =~= b);
    if b.len() >= 1 {
        let b1 = b.drop_last();
        if b1.len() >= 1 {
            assert(b1.last() == b[b.len() - 2]);
            let b2 = b1.drop_last();
            if b2.len() >= 1 {
                assert(b2.last() == b[b.len() - 3]);
            }
        }
    }
}

proof fn lemma_header_end_extends(b: Seq<u8>, n: int)
    requires
        0 <= n <= b.len(),
        header_end(b.take(n)) is Some,
    ensures
        header_end(b) == header_end(b.take(n)),
    decreases b.len(),
{
    if n < b.len() {
        assert(b.drop_last().take(n) =~= b.take(n));
        lemma_header_end_extends(b.drop_last(), n);
    } else {
        assert(b.take(n) =~= b);
    }
}

/// Scans a byte stream, chunk by chunk, for the `---` line that closes the
/// header of a word-list file.
pub struct HeaderScanner {
    dashes: u8,
    seen: Ghost<Seq<u8>>,
}

impl HeaderScanner {
    /// The bytes fed so far.
    pub closed spec fn seen(&self) -> Seq<u8> {
        self.seen@
    }

    /// No header end among the bytes fed so far, and the count of dashes at
    /// their end (up to three) is remembered.
    pub closed spec fn wf(&self) -> bool {
        &&& header_end(self.seen@) is None
        &&& self.dashes as nat == if trailing_dashes(self.seen@) >= 3 {
            3
        } else {
            trailing_dashes(self.seen@)
        }
    }

    /// A scanner that has seen nothing.
    pub fn new() -> (r: HeaderScanner)
        ensures
            r.wf(),
            r.seen() == Seq::<u8>::empty(),
    {
        HeaderScanner { dashes: 0, seen: Ghost(Seq::empty()) }
    }

    /// Feeds the next chunk. Returns the index in `chunk` of the line feed
    /// that closes the header, if the header closes in this chunk.
    pub fn feed(&mut self, chunk: &[u8]) -> (r: Option<usize>)
        requires
            old(self).wf(),
        ensures
            match r {
                Some(p) => {
                    &&& p < chunk@.len()
                    &&& header_end(old(self).seen() + chunk@) == Some((old(self).seen().len() + p) as nat)
                },
                None => {
                    &&& final(self).wf()
                    &&& final(self).seen() == old(self).seen() + chunk@
                },
            },
    {
        let ghost start = self.seen@;
        let mut i: usize = 0;
        while i < chunk.len()
            invariant
                self.wf(),
                i <= chunk@.len(),
                self.seen@ == start + chunk@.take(i as int),
                start == old(self).seen@,
            decreases chunk@.len() - i,
        {
            let x = chunk[i];
            let ghost s = self.seen@;
            proof {
                lemma_trailing_push(s, x);
                assert(s.push(x).drop_last() =~= s);
                assert(start + chunk@.take(i + 1) =~= s.push(x));
            }
            if x == 10u8 && self.dashes == 3 {
                proof {
                    assert(closes_header(s.push(x), s.len() as int));
                    assert(header_end(s.push(x)) == Some(s.len()));
                    let all = start + chunk@;
                    assert(all.take(s.len() + 1int) =~= s.push(x));
                    lemma_header_end_extends(all, s.len() + 1int);
                    assert(header_end(all) == Some((start.len() + i) as nat));
                }
                return Some(i);
            }
            if x == 45u8 {
                if self.dashes < 3 {
                    self.dashes = self.dashes + 1;
                }
            } else {
                self.dashes = 0;
            }
            self.seen = Ghost(s.push(x));
            i = i + 1;
        }
        assert(chunk@.take(i as int) =~= chunk@);
        None
    }
}

impl WordList {
    /// Builds a list named `name` from the bytes of a word-list body.
    pub fn from_body(name: String, body: Vec<u8>) -> (r: Result<WordList, LoadError>)
        ensures
            match r {
                Ok(l) => valid_utf8(body@) && l@.name == name@ && l@.words == body_words(decode_utf8(body@)),
                Err(LoadError::Encoding { name: n }) => !valid_utf8(body@) && n@ == name@,
                Err(_) => false,
            },
    {
        match decode(body) {
            None => Err(LoadError::Encoding { name }),
            Some(text) => {
                let lower = lowercase(text.as_str());
                let words = split_words(&lower);
                Ok(WordList { name, words })
            },
        }
    }
}

/// Splits `text` into its non-empty lines, carriage returns stripped.
fn split_words(text: &String) -> (r: Vec<String>)
    ensures
        r@.map_values(|w: String| w@) == keep_words(split_lines(text@)),
{
    let ghost all = text@;
    let mut words: Vec<String> = Vec::new();
    let mut cur: Vec<char> = Vec::new();
    let mut it = text.as_str().chars();
    let ghost mut n: int = 0;
    proof {
        assert(all.skip(0) =~= all);
        assert(all.take(0) =~= Seq::<char>::empty());
    }
    loop
        invariant
            0 <= n <= all.len(),
            it.remaining() == all.skip(n),
            split_lines(all.take(n)).len() >= 1,
            cur@ == split_lines(all.take(n)).last(),
            words@.map_values(|w: String| w@) == keep_words(split_lines(all.take(n)).drop_last()),
        ensures
            all.take(n) == all,
            cur@ == split_lines(all).last(),
            words@.map_values(|w: String| w@) == keep_words(split_lines(all).drop_last()),
        decreases all.len() - n,
    {
        let ghost pre = all.take(n);
        match it.next() {
            None => {
                proof {
                    assert(all.take(n) =~= all);
                }
                break;
            },
            Some(ch) => {
                proof {
                    assert(all[n] == ch);
                    assert(all.take(n + 1).drop_last() =~= pre);
                    assert(all.skip(n).drop_first() =~= all.skip(n + 1));
                    lemma_split_lines_len(all.take(n + 1));
                }
                if ch == '\n' {
                    let ghost lines = split_lines(pre);
                    proof {
                        assert(lines.push(Seq::<char>::empty()).drop_last() =~= lines);
                        assert(lines =~= lines.drop_last().push(lines.last()));
                    }
                    if cur.len() > 0 && cur[cur.len() - 1] == '\r' {
                        cur.pop();
                    }
                    if cur.len() > 0 {
                        let w = string_of(&cur);
                        let ghost before = words@;
                        words.push(w);
                        assert(words@.map_values(|w: String| w@) =~= before.map_values(|w: String| w@).push(w@));
                    }
                    cur = Vec::new();
                } else {
                    let ghost lines = split_lines(pre);
                    proof {
                        let nl = lines.update(lines.len() - 1, lines.last().push(ch));
                        assert(nl.drop_last() =~= lines.drop_last());
                    }
                    cur.push(ch);
                }
                proof {
                    n = n + 1;
                }
            },
        }
    }
    let ghost lines = split_lines(all);
    proof {
        lemma_split_lines_len(all);
        assert(lines =~= lines.drop_last().push(lines.last()));
    }
    if cur.len() > 0 && cur[cur.len() - 1] == '\r' {
        cur.pop();
    }
    if cur.len() > 0 {
        let w = string_of(&cur);
        let ghost before = words@;
        words.push(w);
        assert(words@.map_values(|w: String| w@) =~= before.map_values(|w: String| w@).push(w@));
    }
    words
}

/// What loading a word-list file of these bytes gives: the words of the body
/// after the header, or the error that stops it.
pub open spec fn load_outcome(name: Seq<char>, file: Seq<u8>) -> Option<Dictionary> {
    match header_end(file) {
        None => None,
        Some(e) => {
            let body = file.skip(e + 1int);
            if valid_utf8(body) {
                Some(Dictionary { name, words: body_words(decode_utf8(body)) })
            } else {
                None
            }
        },
    }
}

proof fn lemma_concat_push(chunks: Seq<Vec<u8>>, c: Vec<u8>)
    ensures
        concat_chunks(chunks.push(c)) == concat_chunks(chunks) + c@,
{
    let f = |c: Vec<u8>| c@;
    assert(chunks.push(c).map_values(f) =~= chunks.map_values(f).push(c@));
    chunks.map_values(f).lemma_flatten_push(c@);
}

proof fn lemma_concat_split(chunks: Seq<Vec<u8>>, i: int)
    requires
        0 <= i < chunks.len(),
    ensures
        concat_chunks(chunks) == concat_chunks(chunks.take(i)) + chunks[i]@ + concat_chunks(
            chunks.skip(i + 1),
        ),
{
    let f = |c: Vec<u8>| c@;
    let m = chunks.map_values(f);
    assert(m =~= chunks.take(i).map_values(f).push(chunks[i]@) + chunks.skip(i + 1).map_values(f));
    lemma_flatten_concat(chunks.take(i).map_values(f).push(chunks[i]@), chunks.skip(i + 1).map_values(f));
    chunks.take(i).map_values(f).lemma_flatten_push(chunks[i]@);
}

/// Loads a word list named `name` from a file that arrives in `chunks`. The
/// header is scanned chunk by chunk; the bytes after it form the body.
pub fn parse_list(name: String, chunks: &Vec<Vec<u8>>) -> (r: Result<WordList, LoadError>)
    ensures
        match r {
            Ok(l) => load_outcome(name@, concat_chunks(chunks@)) == Some(l@),
            Err(LoadError::Format { name: n }) => n@ == name@ && header_end(concat_chunks(chunks@)) is None,
            Err(LoadError::Encoding { name: n }) => {
                &&& n@ == name@
                &&& header_end(concat_chunks(chunks@)) is Some
                &&& load_outcome(name@, concat_chunks(chunks@)) is None
            },
            Err(_) => false,
        },
{
    let ghost all = concat_chunks(chunks@);
    let mut scanner = HeaderScanner::new();
    let mut ci: usize = 0;
    proof {
        assert(chunks@.take(0).map_values(|c: Vec<u8>| c@) =~= Seq::<Seq<u8>>::empty());
    }
    while ci < chunks.len()
        invariant
            all == concat_chunks(chunks@),
            ci <= chunks.len(),
            scanner.wf(),
            scanner.seen() == concat_chunks(chunks@.take(ci as int)),
        decreases chunks.len() - ci,
    {
        let chunk = &chunks[ci];
        let ghost seen = scanner.seen();
        let bytes = chunk.as_slice();
        assert(bytes@ == chunk@);
        match scanner.feed(bytes) {
            Some(p) => {
                let mut body: Vec<u8> = Vec::new();
                let clen = chunk.len();
                assert(p < clen);
                let mut j: usize = p + 1;
                while j < chunk.len()
                    invariant
                        p < chunk@.len(),
                        p + 1 <= j <= chunk@.len(),
                        body@ == chunk@.subrange(p + 1, j as int),
                    decreases chunk.len() - j,
                {
                    body.push(chunk[j]);
                    j = j + 1;
                }
                let mut k: usize = ci + 1;
                while k < chunks.len()
                    invariant
                        ci < k <= chunks.len(),
                        p < chunk@.len(),
                        chunk == chunks@[ci as int],
                        body@ == chunk@.skip(p + 1) + concat_chunks(chunks@.subrange(ci + 1, k as int)),
                    decreases chunks.len() - k,
                {
                    let next = &chunks[k];
                    let ghost before = body@;
                    let mut j: usize = 0;
                    while j < next.len()
                        invariant
                            j <= next@.len(),
                            body@ == before + next@.take(j as int),
                        decreases next.len() - j,
                    {
                        body.push(next[j]);
                        j = j + 1;
                        assert(next@.take(j as int) =~= next@.take(j - 1).push(next[j - 1]));
                    }
                    proof {
                        assert(next@.take(j as int) =~= next@);
                        assert(chunks@.subrange(ci + 1, k + 1) =~= chunks@.subrange(ci + 1, k as int).push(*next));
                        lemma_concat_push(chunks@.subrange(ci + 1, k as int), *next);
                    }
                    k = k + 1;
                }
                proof {
                    assert(chunks@.subrange(ci + 1, k as int) =~= chunks@.skip(ci + 1));
                    lemma_concat_split(chunks@, ci as int);
                    let n: int = (seen.len() + chunk@.len()) as int;
                    assert(all.take(n) =~= seen + chunk@);
                    lemma_header_end_extends(all, n);
                    assert(all.skip(seen.len() + p + 1) =~= body@);
                }
                return WordList::from_body(name, body);
            },
            None => {
                proof {
                    assert(chunks@.take(ci + 1) =~= chunks@.take(ci as int).push(*chunk));
                    lemma_concat_push(chunks@.take(ci as int), *chunk);
                }
            },
        }
        ci = ci + 1;
    }
    assert(chunks@.take(ci as int) =~= chunks@);
    Err(LoadError::Format { name })
}

/// Loads every word list, in order, each a name and the chunks of its file;
/// the first failure ends the load and no list is returned.
pub fn parse_lists(sources: &Vec<(String, Vec<Vec<u8>>)>) -> (r: Result<Vec<WordList>, LoadError>)
    ensures
        r is Ok <==> forall|i: int| 0 <= i < sources@.len()
            ==> load_outcome(sources@[i].0@, concat_chunks(sources@[i].1@)) is Some,
        r matches Ok(v) ==> v@.len() == sources@.len() && forall|i: int| 0 <= i < sources@.len()
            ==> load_outcome(sources@[i].0@, concat_chunks(sources@[i].1@)) == Some(v@[i]@),
{
    let mut lists: Vec<WordList> = Vec::new();
    let mut i: usize = 0;
    while i < sources.len()
        invariant
            i <= sources@.len(),
            lists@.len() == i,
            forall|j: int| 0 <= j < i
                ==> load_outcome(sources@[j].0@, concat_chunks(sources@[j].1@)) == Some(lists@[j]@),
        decreases sources.len() - i,
    {
        let (name, chunks) = &sources[i];
        match parse_list(name.clone(), chunks) {
            Ok(l) => {
                lists.push(l);
            },
            Err(e) => {
                assert(load_outcome(sources@[i as int].0@, concat_chunks(sources@[i as int].1@)) is None);
                return Err(e);
            },
        }
        i = i + 1;
    }
    assert forall|j: int| 0 <= j < sources@.len() implies load_outcome(
        sources@[j].0@,
        concat_chunks(sources@[j].1@),
    ) is Some by {
        assert(load_outcome(sources@[j].0@, concat_chunks(sources@[j].1@)) == Some(lists@[j]@));
    }
    Ok(lists)
}

/// One line of the manifest: `- name (count words)`.
pub open spec fn manifest_line(d: Dictionary) -> Seq<char> {
    seq!['-', ' '] + d.name + seq![' ', '('] + decimal(d.words.len()) + seq![' ', 'w', 'o', 'r', 'd', 's', ')']
}

/// The manifest of the dictionaries: one line each, joined by line feeds.
pub open spec fn manifest_text(ds: Seq<Dictionary>) -> Seq<char>
    decreases ds.len(),
{
    if ds.len() == 0 {
        Seq::<char>::empty()
    } else if ds.len() == 1 {
        manifest_line(ds[0])
    } else {
        manifest_text(ds.drop_last()) + seq!['\n'] + manifest_line(ds.last())
    }
}

/// Describes the loaded dictionaries, each by its name and word count.
pub fn manifest(lists: &Vec<WordList>) -> (r: String)
    ensures
        r@ == manifest_text(lists@.map_values(|l: WordList| l@)),
{
    let ghost ds = lists@.map_values(|l: WordList| l@);
    let mut text = String::new();
    let mut i: usize = 0;
    proof {
        reveal_strlit("\n");
        reveal_strlit("- ");
        reveal_strlit(" (");
        reveal_strlit(" words)");
    }
    while i < lists.len()
        invariant
            ds == lists@.map_values(|l: WordList| l@),
            i <= lists@.len(),
            text@ == manifest_text(ds.take(i as int)),
        decreases lists.len() - i,
    {
        let l = &lists[i];
        let ghost before = text@;
        proof {
            reveal_strlit("\n");
            reveal_strlit("- ");
            reveal_strlit(" (");
            reveal_strlit(" words)");
        }
        if i > 0 {
            text.append("\n");
        }
        text.append("- ");
        text.append(l.name());
        text.append(" (");
        let count = decimal_string(l.len());
        text.append(count.as_str());
        text.append(" words)");
        proof {
            let t = ds.take(i + 1);
            assert(t.drop_last() =~= ds.take(i as int));
            assert(t.last() == l@);
            let line = manifest_line(l@);
            if i == 0 {
                assert(before =~= Seq::<char>::empty());
                assert(text@ =~= line);
            } else {
                assert(text@ =~= before + seq!['\n'] + line);
            }
        }
        i = i + 1;
    }
    assert(ds.take(i as int) =~= ds);
    text
}

proof fn lemma_keep_words_not_blank(lines: Seq<Seq<char>>)
    ensures
        forall|i: int| 0 <= i < keep_words(lines).len() ==> keep_words(lines)[i].len() > 0,
    decreases lines.len(),
{
    if lines.len() > 0 {
        lemma_keep_words_not_blank(lines.drop_last());
        let w = keep_words(lines.drop_last());
        let l = strip_cr(lines.last());
        if l.len() > 0 {
            assert forall|i: int| 0 <= i < w.push(l).len() implies w.push(l)[i].len() > 0 by {
                if i < w.len() {
                    assert(w.push(l)[i] == w[i]);
                }
            }
        }
    }
}

/// A list loaded from a file holds the lines of its body after the header,
/// lower-cased and in file order, with no blank entry; its count is the
/// number of those words.
pub proof fn lemma_loaded_words(name: Seq<char>, file: Seq<u8>)
    requires
        load_outcome(name, file) is Some,
    ensures
        ({
            let d = load_outcome(name, file)->0;
            let e = header_end(file)->0;
            &&& d.name == name
            &&& d.words == keep_words(split_lines(lower_of(decode_utf8(file.skip(e + 1int)))))
            &&& forall|i: int| 0 <= i < d.words.len() ==> d.words[i].len() > 0
        }),
{
    let e = header_end(file)->0;
    lemma_keep_words_not_blank(split_lines(lower_of(decode_utf8(file.skip(e + 1int)))));
}

} // verus!
