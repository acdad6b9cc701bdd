//! Character-level helpers: whitespace, and strings as sequences of characters.

use vstd::prelude::*;

verus! {

/// Whether `c` has the Unicode `White_Space` property.
pub open spec fn is_whitespace(c: char) -> bool {
    let n = c as u32;
    ||| 0x09 <= n <= 0x0d
    ||| n == 0x20
    ||| n == 0x85
    ||| n == 0xa0
    ||| n == 0x1680
    ||| 0x2000 <= n <= 0x200a
    ||| n == 0x2028
    ||| n == 0x2029
    ||| n == 0x202f
    ||| n == 0x205f
    ||| n == 0x3000
}

/// Decides [`is_whitespace`].
pub fn char_is_whitespace(c: char) -> (r: bool)
    ensures
        r == is_whitespace(c),
{
    let n: u32 = c as u32;
    (0x09 <= n && n <= 0x0d) || n == 0x20 || n == 0x85 || n == 0xa0 || n == 0x1680 || (0x2000 <= n
        && n <= 0x200a) || n == 0x2028 || n == 0x2029 || n == 0x202f || n == 0x205f || n == 0x3000
}

/// The characters of `s`, in order.
pub fn chars_of(s: &str) -> (v: Vec<char>)
    ensures
        v@ == s@,
{
    let mut v: Vec<char> = Vec::new();
    for c in it: s.chars()
        invariant
            v@ == it.seq().take(it.index() as int),
            it.seq() == s@,
    {
        v.push(c);
    }
    v
}

/// Whether two strings hold the same characters.
pub fn str_eq(a: &str, b: &str) -> (r: bool)
    ensures
        r == (a@ == b@),
{
    let x = a.as_bytes();
    let y = b.as_bytes();
    proof {
        vstd::utf8::encode_utf8_decode_utf8(a@);
        vstd::utf8::encode_utf8_decode_utf8(b@);
    }
    if x.len() != y.len() {
        return false;
    }
    let mut i: usize = 0;
    while i < x.len()
        invariant
            i <= x.len(),
            x.len() == y.len(),
            x@ == vstd::utf8::encode_utf8(a@),
            y@ == vstd::utf8::encode_utf8(b@),
            forall|k: int| 0 <= k < i ==> x@[k] == y@[k],
        decreases x.len() - i,
    {
        if x[i] != y[i] {
            return false;
        }
        i += 1;
    }
    assert(x@ =~= y@);
    true
}

/// `token` is the word of `value` that begins at `start`: a run of `value` that holds no
/// whitespace, is not empty, and is bounded on each side by whitespace or by an end of `value`.
pub open spec fn token_at(value: Seq<char>, start: int, token: Seq<char>) -> bool {
    &&& token.len() > 0
    &&& 0 <= start
    &&& start + token.len() <= value.len()
    &&& value.subrange(start, start + token.len()) == token
    &&& forall|k: int| 0 <= k < token.len() ==> !is_whitespace(#[trigger] token[k])
    &&& (start == 0 || is_whitespace(value[start - 1]))
    &&& (start + token.len() == value.len() || is_whitespace(value[start + token.len()]))
}

/// `token` is a word of `value`, said by where it stands: see [`words`] and [`lemma_words`].
pub open spec fn has_token(value: Seq<char>, token: Seq<char>) -> bool {
    exists|start: int| token_at(value, start, token)
}

/// The words of `value` from position `i` on, where `current` holds the characters of the word
/// that has begun before `i`.
pub open spec fn words_from(value: Seq<char>, i: int, current: Seq<char>) -> Seq<Seq<char>>
    decreases value.len() - i,
{
    let done = if current.len() > 0 {
        seq![current]
    } else {
        Seq::empty()
    };
    if i < 0 || i >= value.len() {
        done
    } else if is_whitespace(value[i]) {
        done + words_from(value, i + 1, Seq::empty())
    } else {
        words_from(value, i + 1, current.push(value[i]))
    }
}

/// What splitting `value` on runs of whitespace gives: its words, in order. No word is empty
/// and none holds whitespace.
pub open spec fn words(value: Seq<char>) -> Seq<Seq<char>> {
    words_from(value, 0, Seq::empty())
}

/// A word that begins at `start` and has not ended before `i`, where no whitespace stands
/// from `start` to `i`, goes on at least to `i`.
proof fn lemma_token_spans(value: Seq<char>, start: int, i: int, token: Seq<char>)
    requires
        token_at(value, start, token),
        start <= i <= value.len(),
        forall|k: int| start <= k < i ==> !is_whitespace(#[trigger] value[k]),
    ensures
        start + token.len() >= i,
{
    if start + token.len() < i {
        assert(!is_whitespace(value[start + token.len()]));
    }
}

/// No word begins inside a run without whitespace, or at a whitespace character.
proof fn lemma_no_token_inside(value: Seq<char>, s: int, i: int, start: int, token: Seq<char>)
    requires
        0 <= s <= i <= value.len(),
        forall|k: int| s <= k < i ==> !is_whitespace(#[trigger] value[k]),
        s < start <= i,
        start < value.len() ==> start < i || is_whitespace(value[start]),
    ensures
        !token_at(value, start, token),
{
    if token_at(value, start, token) {
        assert(!is_whitespace(value[start - 1]));
    }
}

/// The words from `i` on, after a run without whitespace from `s` to `i`, are the words of
/// `value` that begin at `s` or later.
proof fn lemma_words_from(value: Seq<char>, s: int, i: int, token: Seq<char>)
    requires
        0 <= s <= i <= value.len(),
        forall|k: int| s <= k < i ==> !is_whitespace(#[trigger] value[k]),
        s == 0 || is_whitespace(value[s - 1]),
    ensures
        words_from(value, i, value.subrange(s, i)).contains(token) <==> exists|start: int|
            s <= start && token_at(value, start, token),
    decreases value.len() - i,
{
    let current = value.subrange(s, i);
    let all = words_from(value, i, current);
    let done = if current.len() > 0 {
        seq![current]
    } else {
        Seq::<Seq<char>>::empty()
    };
    if i >= value.len() || is_whitespace(value[i]) {
        // the run from `s` to `i` is a word, where it is not empty, and the only one that
        // begins at `s` or before `i + 1`
        let rest = if i >= value.len() {
            Seq::<Seq<char>>::empty()
        } else {
            words_from(value, i + 1, Seq::empty())
        };
        if i < value.len() {
            assert(value.subrange(i + 1, i + 1) =~= Seq::<char>::empty());
            lemma_words_from(value, i + 1, i + 1, token);
        }
        if all.contains(token) {
            let n = choose|n: int| 0 <= n < all.len() && all[n] == token;
            if n < done.len() {
                assert(token_at(value, s, token));
            }
        }
        if exists|start: int| s <= start && token_at(value, start, token) {
            let start = choose|start: int| s <= start && token_at(value, start, token);
            if start == s {
                lemma_token_spans(value, s, i, token);
                if start + token.len() > i {
                    assert(value.subrange(start, start + token.len())[i - start] == token[i - start]);
                }
                assert(all[0] == token);
            } else if start <= i {
                lemma_no_token_inside(value, s, i, start, token);
            } else {
                let n = choose|n: int| 0 <= n < rest.len() && rest[n] == token;
                assert(all[done.len() + n] == token);
            }
        }
    } else {
        assert(current.push(value[i]) =~= value.subrange(s, i + 1));
        lemma_words_from(value, s, i + 1, token);
    }
}

/// The words of a value are the runs of it that [`has_token`] speaks of.
pub proof fn lemma_words(value: Seq<char>, token: Seq<char>)
    ensures
        words(value).contains(token) <==> has_token(value, token),
{
    assert(value.subrange(0, 0) =~= Seq::<char>::empty());
    lemma_words_from(value, 0, 0, token);
}

/// Whether `v` holds a whitespace character.
fn any_whitespace(v: &Vec<char>) -> (r: bool)
    ensures
        r == exists|k: int| 0 <= k < v@.len() && is_whitespace(#[trigger] v@[k]),
{
    let mut i: usize = 0;
    while i < v.len()
        invariant
            i <= v.len(),
            forall|k: int| 0 <= k < i ==> !is_whitespace(#[trigger] v@[k]),
        decreases v.len() - i,
    {
        if char_is_whitespace(v[i]) {
            return true;
        }
        i += 1;
    }
    false
}

/// Whether `t` stands in `v` from `start` on.
fn matches_at(v: &Vec<char>, start: usize, t: &Vec<char>) -> (r: bool)
    requires
        start + t.len() <= v.len(),
    ensures
        r == (v@.subrange(start as int, start + t@.len()) == t@),
{
    let mut k: usize = 0;
    while k < t.len()
        invariant
            k <= t.len(),
            start + t.len() <= v.len(),
            forall|j: int| 0 <= j < k ==> v@[start + j] == t@[j],
        decreases t.len() - k,
    {
        if v[start + k] != t[k] {
            return false;
        }
        k += 1;
    }
    assert(v@.subrange(start as int, start + t@.len()) =~= t@);
    true
}

/// Whether `token` is one of the words that splitting `value` on runs of whitespace gives. A
/// `token` that is empty or holds whitespace is none, whatever the value.
pub fn contains_token(value: &str, token: &str) -> (r: bool)
    ensures
        r == words(value@).contains(token@),
        r == has_token(value@, token@),
        token@.len() == 0 ==> !r,
        (exists|k: int| 0 <= k < token@.len() && is_whitespace(#[trigger] token@[k])) ==> !r,
{
    proof {
        lemma_words(value@, token@);
    }
    let v = chars_of(value);
    let t = chars_of(token);
    if t.len() == 0 || t.len() > v.len() || any_whitespace(&t) {
        return false;
    }
    let last: usize = v.len() - t.len();
    let mut start: usize = 0;
    while start <= last
        invariant
            start <= last + 1,
            last + t.len() == v.len(),
            t.len() > 0,
            forall|k: int| 0 <= k < t@.len() ==> !is_whitespace(#[trigger] t@[k]),
            v@ == value@,
            t@ == token@,
            words(v@).contains(t@) == has_token(v@, t@),
            forall|s: int| 0 <= s < start ==> !token_at(v@, s, t@),
        decreases last + 1 - start,
    {
        let opens = start == 0 || char_is_whitespace(v[start - 1]);
        let closes = start == last || char_is_whitespace(v[start + t.len()]);
        if opens && closes && matches_at(&v, start, &t) {
            assert(token_at(v@, start as int, t@));
            return true;
        }
        start += 1;
    }
    false
}

} // verus!
