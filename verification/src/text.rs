//! Text as a sequence of characters: whitespace, words, and joining words
//! back into text.

use vstd::prelude::*;
use vstd::std_specs::iter::IteratorSpec;
use vstd::string::StringExecFns;

verus! {

/// Whether `c` is whitespace as Unicode defines it (`White_Space`).
pub open spec fn is_whitespace(c: char) -> bool {
    let u = c as u32;
    ||| 0x09 <= u <= 0x0D
    ||| u == 0x20
    ||| u == 0x85
    ||| u == 0xA0
    ||| u == 0x1680
    ||| 0x2000 <= u <= 0x200A
    ||| u == 0x2028
    ||| u == 0x2029
    ||| u == 0x202F
    ||| u == 0x205F
    ||| u == 0x3000
}

/// A word is a non-empty run of characters, none of them whitespace.
pub open spec fn is_word(w: Seq<char>) -> bool {
    &&& w.len() > 0
    &&& forall|i: int| 0 <= i < w.len() ==> !is_whitespace(#[trigger] w[i])
}

/// Length of the longest prefix of `s` that holds no whitespace.
pub open spec fn word_end(s: Seq<char>) -> nat
    decreases s.len(),
{
    if s.len() == 0 || is_whitespace(s[0]) {
        0
    } else {
        1 + word_end(s.skip(1))
    }
}

/// The words of `s`: its maximal runs of non-whitespace characters, in order.
pub open spec fn words_of(s: Seq<char>) -> Seq<Seq<char>>
    decreases s.len(),
    via words_of_decreases
{
    if s.len() == 0 {
        Seq::empty()
    } else if is_whitespace(s[0]) {
        words_of(s.skip(1))
    } else {
        seq![s.take(word_end(s) as int)] + words_of(s.skip(word_end(s) as int))
    }
}

#[via_fn]
proof fn words_of_decreases(s: Seq<char>) {
    if s.len() > 0 && !is_whitespace(s[0]) {
        lemma_word_end_bounds(s);
    }
}

/// The words of `ws` written one after another with a single space between
/// neighbours.
pub open spec fn join_words(ws: Seq<Seq<char>>) -> Seq<char>
    decreases ws.len(),
{
    if ws.len() == 0 {
        Seq::empty()
    } else if ws.len() == 1 {
        ws[0]
    } else {
        join_words(ws.drop_last()) + seq![' '] + ws.last()
    }
}

/// Every element of `ws` is a word.
pub open spec fn all_words(ws: Seq<Seq<char>>) -> bool {
    forall|i: int| 0 <= i < ws.len() ==> is_word(#[trigger] ws[i])
}

/// The views of a vector of strings.
pub open spec fn views(v: Seq<String>) -> Seq<Seq<char>> {
    v.map_values(|s: String| s@)
}

/// The views of a slice of string slices.
pub open spec fn strs(v: Seq<&str>) -> Seq<Seq<char>> {
    v.map_values(|s: &str| s@)
}

/// The words of all of `chunks`, in order.
pub open spec fn words_of_all(chunks: Seq<Seq<char>>) -> Seq<Seq<char>>
    decreases chunks.len(),
{
    if chunks.len() == 0 {
        Seq::empty()
    } else {
        words_of_all(chunks.drop_last()) + words_of(chunks.last())
    }
}

/// The words of two lists of chunks, one after the other, are the words of
/// the first list followed by those of the second.
pub proof fn lemma_words_of_all_concat(a: Seq<Seq<char>>, b: Seq<Seq<char>>)
    ensures
        words_of_all(a + b) == words_of_all(a) + words_of_all(b),
    decreases b.len(),
{
    if b.len() == 0 {
        assert(a + b == a);
        assert(words_of_all(a) + words_of_all(b) == words_of_all(a));
    } else {
        assert((a + b).drop_last() == a + b.drop_last());
        assert((a + b).last() == b.last());
        lemma_words_of_all_concat(a, b.drop_last());
        assert((words_of_all(a) + words_of_all(b.drop_last())) + words_of(b.last())
            == words_of_all(a) + (words_of_all(b.drop_last()) + words_of(b.last())));
    }
}

/// A single chunk has the words of its text.
pub proof fn lemma_words_of_all_single(chunk: Seq<char>)
    ensures
        words_of_all(seq![chunk]) == words_of(chunk),
{
    let one = seq![chunk];
    assert(one.drop_last().len() == 0);
    assert(words_of_all(one.drop_last()) == Seq::<Seq<char>>::empty());
    assert(Seq::<Seq<char>>::empty() + words_of(chunk) == words_of(chunk));
}

/// `word_end` stays inside `s`, passes over no whitespace, and stops at the
/// end of `s` or in front of a whitespace character.
pub proof fn lemma_word_end_bounds(s: Seq<char>)
    ensures
        word_end(s) <= s.len(),
        forall|i: int| 0 <= i < word_end(s) ==> !is_whitespace(#[trigger] s[i]),
        word_end(s) < s.len() ==> is_whitespace(s[word_end(s) as int]),
        s.len() > 0 && !is_whitespace(s[0]) ==> word_end(s) >= 1,
    decreases s.len(),
{
    if s.len() == 0 || is_whitespace(s[0]) {
    } else {
        let t = s.skip(1);
        lemma_word_end_bounds(t);
        assert forall|i: int| 0 <= i < word_end(s) implies !is_whitespace(#[trigger] s[i]) by {
            if i > 0 {
                assert(s[i] == t[i - 1]);
            }
        }
        if word_end(s) < s.len() {
            assert(s[word_end(s) as int] == t[word_end(t) as int]);
        }
    }
}

/// A prefix without whitespace that ends at the end of `s` or in front of a
/// whitespace character has the length `word_end(s)`.
pub proof fn lemma_word_end_is(s: Seq<char>, k: int)
    requires
        0 <= k <= s.len(),
        forall|i: int| 0 <= i < k ==> !is_whitespace(#[trigger] s[i]),
        k < s.len() ==> is_whitespace(s[k]),
    ensures
        word_end(s) == k,
    decreases k,
{
    if k == 0 {
    } else {
        let t = s.skip(1);
        assert forall|i: int| 0 <= i < k - 1 implies !is_whitespace(#[trigger] t[i]) by {
            assert(t[i] == s[i + 1]);
        }
        assert(!is_whitespace(s[0]));
        lemma_word_end_is(t, k - 1);
    }
}

/// A word is the only word of itself.
pub proof fn lemma_words_of_word(w: Seq<char>)
    requires
        is_word(w),
    ensures
        words_of(w) == seq![w],
{
    lemma_word_end_is(w, w.len() as int);
    assert(!is_whitespace(w[0]));
    assert(w.take(w.len() as int) == w);
    assert(w.skip(w.len() as int).len() == 0);
    assert(words_of(w.skip(w.len() as int)) == Seq::<Seq<char>>::empty());
    assert(seq![w] + Seq::<Seq<char>>::empty() == seq![w]);
}

/// The words of a text are words.
pub proof fn lemma_words_are_words(s: Seq<char>)
    ensures
        all_words(words_of(s)),
    decreases s.len(),
{
    if s.len() == 0 {
    } else if is_whitespace(s[0]) {
        lemma_words_are_words(s.skip(1));
    } else {
        lemma_word_end_bounds(s);
        let n = word_end(s) as int;
        lemma_words_are_words(s.skip(n));
        let first = s.take(n);
        let rest = words_of(s.skip(n));
        assert(is_word(first));
        assert forall|i: int| 0 <= i < words_of(s).len() implies is_word(
            #[trigger] words_of(s)[i],
        ) by {
            if i > 0 {
                assert(words_of(s)[i] == rest[i - 1]);
            }
        }
    }
}

/// A single space between two texts separates their words: the words of the
/// whole are the words of the first followed by the words of the second.
pub proof fn lemma_words_of_spaced(a: Seq<char>, b: Seq<char>)
    ensures
        words_of(a + seq![' '] + b) == words_of(a) + words_of(b),
    decreases a.len(),
{
    let s = a + seq![' '] + b;
    if a.len() == 0 {
        assert(s[0] == ' ');
        assert(is_whitespace(' '));
        assert(s.skip(1) == b);
        assert(words_of(a) + words_of(b) == words_of(b));
    } else if is_whitespace(a[0]) {
        assert(s[0] == a[0]);
        assert(s.skip(1) == a.skip(1) + seq![' '] + b);
        lemma_words_of_spaced(a.skip(1), b);
    } else {
        assert(s[0] == a[0]);
        lemma_word_end_bounds(a);
        let n = word_end(a) as int;
        assert forall|i: int| 0 <= i < n implies !is_whitespace(#[trigger] s[i]) by {
            assert(s[i] == a[i]);
        }
        assert(is_whitespace(s[n])) by {
            if n < a.len() {
                assert(s[n] == a[n]);
            } else {
                assert(s[n] == ' ');
            }
        }
        lemma_word_end_is(s, n);
        assert(s.take(n) == a.take(n));
        assert(s.skip(n) == a.skip(n) + seq![' '] + b);
        lemma_words_of_spaced(a.skip(n), b);
        assert(seq![a.take(n)] + (words_of(a.skip(n)) + words_of(b)) == (seq![a.take(n)]
            + words_of(a.skip(n))) + words_of(b));
    }
}

/// Joining words with single spaces and reading the words back gives the
/// same words.
pub proof fn lemma_words_of_join(ws: Seq<Seq<char>>)
    requires
        all_words(ws),
    ensures
        words_of(join_words(ws)) == ws,
    decreases ws.len(),
{
    if ws.len() == 0 {
    } else if ws.len() == 1 {
        lemma_words_of_word(ws[0]);
        assert(seq![ws[0]] == ws);
    } else {
        let front = ws.drop_last();
        assert forall|i: int| 0 <= i < front.len() implies is_word(#[trigger] front[i]) by {
            assert(front[i] == ws[i]);
        }
        lemma_words_of_join(front);
        lemma_words_of_spaced(join_words(front), ws.last());
        lemma_words_of_word(ws.last());
        assert(front + seq![ws.last()] == ws);
    }
}

/// `String::push` of the standard library: appends the one character `c`.
pub assume_specification[ String::push ](s: &mut String, c: char)
    ensures
        final(s)@ == old(s)@.push(c),
;

/// Whether `c` is whitespace.
pub fn char_is_whitespace(c: char) -> (r: bool)
    ensures
        r == is_whitespace(c),
{
    let u: u32 = c as u32;
    (0x09 <= u && u <= 0x0D) || u == 0x20 || u == 0x85 || u == 0xA0 || u == 0x1680 || (0x2000 <= u
        && u <= 0x200A) || u == 0x2028 || u == 0x2029 || u == 0x202F || u == 0x205F || u == 0x3000
}

/// The characters of `s`, in order.
pub fn chars_of(s: &str) -> (r: Vec<char>)
    ensures
        r@ == s@,
{
    broadcast use vstd::string::group_string_axioms;

    let mut it = s.chars();
    let mut r: Vec<char> = Vec::new();
    loop
        invariant
            it.obeys_prophetic_iter_laws(),
            it.decrease() is Some,
            r@ + it.remaining() == s@,
        ensures
            r@ == s@,
        decreases it.decrease()->0,
    {
        let ghost before = it;
        match it.next() {
            Some(c) => {
                r.push(c);
                assert(r@ + it.remaining() == s@) by {
                    assert(before.remaining() == seq![c] + it.remaining());
                    assert(r@ == r@.drop_last() + seq![c]);
                    assert(r@.drop_last() + (seq![c] + it.remaining()) == r@ + it.remaining());
                }
            },
            None => {
                assert(it.remaining().len() == 0);
                assert(r@ + it.remaining() == r@);
                break ;
            },
        }
    }
    r
}

/// The string made of the characters `chars[from..to]`.
pub fn string_of(chars: &Vec<char>, from: usize, to: usize) -> (r: String)
    requires
        from <= to <= chars.len(),
    ensures
        r@ == chars@.subrange(from as int, to as int),
{
    let mut r = String::new();
    let mut i: usize = from;
    while i < to
        invariant
            from <= i <= to <= chars.len(),
            r@ == chars@.subrange(from as int, i as int),
        decreases to - i,
    {
        r.push(chars[i]);
        assert(chars@.subrange(from as int, i + 1) == chars@.subrange(from as int, i as int).push(
            chars@[i as int],
        ));
        i += 1;
    }
    r
}

/// Splits `text` at whitespace into its words.
pub fn split_words(text: &str) -> (words: Vec<String>)
    ensures
        views(words@) == words_of(text@),
        all_words(views(words@)),
{
    let chars = chars_of(text);
    let ghost s = chars@;
    let n = chars.len();
    let mut words: Vec<String> = Vec::new();
    let mut i: usize = 0;
    proof {
        assert(s.skip(0) == s);
        assert(views(words@) + words_of(s) == words_of(s));
    }
    while i < n
        invariant
            i <= n,
            n == chars.len(),
            s == chars@,
            words_of(s) == views(words@) + words_of(s.skip(i as int)),
        decreases n - i,
    {
        if char_is_whitespace(chars[i]) {
            assert(s.skip(i as int).skip(1) == s.skip(i + 1));
            i += 1;
        } else {
            let start = i;
            while i < n && !char_is_whitespace(chars[i])
                invariant
                    start <= i <= n,
                    n == chars.len(),
                    s == chars@,
                    forall|k: int| start <= k < i ==> !is_whitespace(#[trigger] s[k]),
                decreases n - i,
            {
                i += 1;
            }
            let word = string_of(&chars, start, i);
            proof {
                let t = s.skip(start as int);
                lemma_word_end_is(t, i - start);
                assert(t.take(i - start) == s.subrange(start as int, i as int));
                assert(t.skip(i - start) == s.skip(i as int));
                assert(views(words@.push(word)) == views(words@).push(word@));
                assert(views(words@) + (seq![word@] + words_of(s.skip(i as int))) == views(
                    words@,
                ).push(word@) + words_of(s.skip(i as int)));
            }
            words.push(word);
        }
    }
    proof {
        assert(s.skip(n as int).len() == 0);
        assert(views(words@) + Seq::<Seq<char>>::empty() == views(words@));
        lemma_words_are_words(s);
    }
    words
}

/// The strings of `words` as slices.
pub fn as_strs<'a>(words: &'a Vec<String>) -> (r: Vec<&'a str>)
    ensures
        strs(r@) == views(words@),
{
    let mut r: Vec<&'a str> = Vec::new();
    let mut i: usize = 0;
    while i < words.len()
        invariant
            i <= words.len(),
            r@.len() == i,
            strs(r@) == views(words@).take(i as int),
        decreases words.len() - i,
    {
        let word = words[i].as_str();
        let ghost before = r@;
        r.push(word);
        assert forall|k: int| 0 <= k <= i implies strs(r@)[k] == views(words@)[k] by {
            if k < i {
                assert(strs(before)[k] == views(words@).take(i as int)[k]);
                assert(r@[k] == before[k]);
            }
        }
        assert(strs(r@) =~= views(words@).take(i + 1));
        i += 1;
    }
    assert(views(words@).take(words.len() as int) =~= views(words@));
    r
}

/// Whether `a` and `b` hold the same characters.
pub fn same_text(a: &str, b: &str) -> (r: bool)
    ensures
        r == (a@ == b@),
{
    let x = chars_of(a);
    let y = chars_of(b);
    if x.len() != y.len() {
        return false;
    }
    let mut i: usize = 0;
    while i < x.len()
        invariant
            i <= x.len(),
            x.len() == y.len(),
            x@ == a@,
            y@ == b@,
            forall|k: int| 0 <= k < i ==> x@[k] == y@[k],
        decreases x.len() - i,
    {
        if x[i] != y[i] {
            return false;
        }
        i += 1;
    }
    assert(x@ =~= y@);
    true
}

/// Joins `words[from..to]` with single spaces.
pub fn join(words: &Vec<String>, from: usize, to: usize) -> (r: String)
    requires
        from <= to <= words.len(),
    ensures
        r@ == join_words(views(words@).subrange(from as int, to as int)),
{
    let mut r = String::new();
    let mut i: usize = from;
    while i < to
        invariant
            from <= i <= to <= words.len(),
            r@ == join_words(views(words@).subrange(from as int, i as int)),
        decreases to - i,
    {
        let ghost done = views(words@).subrange(from as int, i as int);
        let ghost next = views(words@).subrange(from as int, i + 1);
        proof {
            assert(next.drop_last() == done);
            assert(next.last() == words@[i as int]@);
        }
        if i > from {
            r.append(" ");
            proof {
                reveal_strlit(" ");
                assert(" "@ == seq![' ']);
            }
        }
        r.append(words[i].as_str());
        proof {
            if i == from {
                assert(done.len() == 0);
                assert(Seq::<char>::empty() + words@[i as int]@ == words@[i as int]@);
            }
        }
        i += 1;
    }
    r
}

} // verus!
