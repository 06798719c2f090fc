use vstd::prelude::*;
use vstd::std_specs::iter::IteratorSpec;

use crate::word_list::{lower_of, lowercase, string_of};

verus! {

/// The text that opens a lookup request.
pub open spec fn lookup_prefix() -> Seq<char> {
    seq!['s', 'p', 'e', 'l', 'l', ' ']
}

/// The characters that separate words in a request.
pub open spec fn is_space(c: char) -> bool {
    c == ' ' || c == '\t' || c == '\n' || c == '\r'
}

/// `rest[a..b]` is a non-empty run of non-space characters with only spaces
/// around it.
pub open spec fn single_word(rest: Seq<char>, a: int, b: int) -> bool {
    &&& 0 <= a < b <= rest.len()
    &&& forall|i: int| 0 <= i < a ==> is_space(rest[i])
    &&& forall|i: int| b <= i < rest.len() ==> is_space(rest[i])
    &&& forall|i: int| a <= i < b ==> !is_space(rest[i])
}

/// The request is a lookup: the prefix, then one word between spaces.
pub open spec fn is_lookup(q: Seq<char>) -> bool {
    &&& q.len() >= lookup_prefix().len()
    &&& q.take(lookup_prefix().len() as int) == lookup_prefix()
    &&& exists|a: int, b: int| single_word(q.skip(lookup_prefix().len() as int), a, b)
}

/// The reference word of a request: the word after the prefix, lower-cased,
/// when the request is a lookup; `None` asks for the manifest instead.
pub fn lookup_word(query: &str) -> (r: Option<String>)
    ensures
        r is Some <==> is_lookup(query@),
        r matches Some(w) ==> exists|a: int, b: int|
            single_word(query@.skip(6), a, b) && w@ == lower_of(query@.skip(6).subrange(a, b)),
{
    let ghost q = query@;
    let mut chars: Vec<char> = Vec::new();
    let mut it = query.chars();
    loop
        invariant
            chars@.len() <= q.len(),
            it.remaining() == q.skip(chars@.len() as int),
            chars@ == q.take(chars@.len() as int),
        ensures
            chars@ == q,
        decreases q.len() - chars@.len(),
    {
        match it.next() {
            None => {
                assert(q.take(chars@.len() as int) =~= q);
                break;
            },
            Some(c) => {
                let ghost n = chars@.len() as int;
                assert(q.skip(n).drop_first() =~= q.skip(n + 1));
                chars.push(c);
                assert(q.take(n + 1) =~= q.take(n).push(c));
            },
        }
    }
    let n = chars.len();
    if n < 6 {
        return None;
    }
    if !(chars[0] == 's' && chars[1] == 'p' && chars[2] == 'e' && chars[3] == 'l' && chars[4] == 'l'
        && chars[5] == ' ') {
        proof {
            if q.take(6) == lookup_prefix() {
                assert(q.take(6)[0] == 's' && q.take(6)[1] == 'p' && q.take(6)[2] == 'e');
                assert(q.take(6)[3] == 'l' && q.take(6)[4] == 'l' && q.take(6)[5] == ' ');
            }
        }
        return None;
    }
    assert(q.take(6) =~= lookup_prefix());
    let ghost rest = q.skip(6);
    let mut a: usize = 6;
    while a < n && (chars[a] == ' ' || chars[a] == '\t' || chars[a] == '\n' || chars[a] == '\r')
        invariant
            n == chars@.len(),
            chars@ == q,
            q == query@,
            rest == q.skip(6),
            6 <= a <= n,
            forall|j: int| 0 <= j < a - 6 ==> is_space(rest[j]),
        decreases n - a,
    {
        a = a + 1;
    }
    assert(a < n ==> !is_space(rest[a - 6]));
    let mut b: usize = n;
    while b > a && (chars[b - 1] == ' ' || chars[b - 1] == '\t' || chars[b - 1] == '\n' || chars[b - 1] == '\r')
        invariant
            n == chars@.len(),
            chars@ == q,
            q == query@,
            rest == q.skip(6),
            6 <= a <= b <= n,
            a < n ==> !is_space(rest[a - 6]),
            forall|j: int| 0 <= j < a - 6 ==> is_space(rest[j]),
            forall|j: int| b - 6 <= j < n - 6 ==> is_space(rest[j]),
        decreases b,
    {
        assert(rest[b - 7] == chars@[b - 1]);
        b = b - 1;
    }
    assert(a < b ==> !is_space(rest[b - 7]));
    if a == b {
        proof {
            assert forall|x: int, y: int| !single_word(rest, x, y) by {
                if single_word(rest, x, y) {
                    if x < a - 6 {
                        assert(is_space(rest[x]));
                    } else {
                        assert(is_space(rest[x]));
                    }
                }
            }
        }
        return None;
    }
    let mut word: Vec<char> = Vec::new();
    let mut k: usize = a;
    while k < b
        invariant
            n == chars@.len(),
            chars@ == q,
            q == query@,
            rest == q.skip(6),
            6 <= a <= k <= b <= n,
            word@ == q.subrange(a as int, k as int),
            a < b ==> !is_space(rest[a - 6]) && !is_space(rest[b - 7]),
            forall|j: int| 0 <= j < a - 6 ==> is_space(rest[j]),
            forall|j: int| b - 6 <= j < n - 6 ==> is_space(rest[j]),
            forall|j: int| a - 6 <= j < k - 6 ==> !is_space(rest[j]),
        decreases b - k,
    {
        let c = chars[k];
        assert(rest[k - 6] == c);
        if c == ' ' || c == '\t' || c == '\n' || c == '\r' {
            proof {
                assert(is_space(rest[k - 6]));
                assert(!is_space(rest[a - 6]));
                assert(!is_space(rest[b - 7]));
                assert forall|x: int, y: int| !single_word(rest, x, y) by {
                    if single_word(rest, x, y) {
                        assert(x <= a - 6) by {
                            if x > a - 6 {
                                assert(is_space(rest[a - 6]));
                            }
                        }
                        assert(b - 7 < y) by {
                            if y <= b - 7 {
                                assert(is_space(rest[b - 7]));
                            }
                        }
                        assert(!is_space(rest[k - 6]));
                    }
                }
                assert(lookup_prefix().len() == 6);
                assert(!is_lookup(q));
            }
            return None;
        }
        word.push(c);
        k = k + 1;
        assert(word@ =~= q.subrange(a as int, k as int));
    }
    assert(single_word(rest, a - 6, b - 6));
    assert(word@ =~= rest.subrange(a - 6, b - 6));
    let text = string_of(&word);
    Some(lowercase(text.as_str()))
}

} // verus!
