//! Cutting a long chunk near its middle, at a comma or in front of a break
//! word, and again in each half up to a fixed depth.

use crate::lexicon::{
    break_word_list, break_words, ends_with_any, has_any_suffix, is_break_word_in,
    word_is_break_word,
};
use crate::text::{
    all_words, as_strs, join, join_words, lemma_words_are_words, lemma_words_of_all_concat,
    lemma_words_of_all_single, lemma_words_of_join, split_words, strs, views, words_of, words_of_all,
};
use vstd::prelude::*;
use vstd::string::StringExecFns;

verus! {

/// A chunk of at least this many words is cut where a place to cut is found.
pub const LONG_CHUNK_THRESHOLD: usize = 12;

/// The halves of a halved chunk are cut again at most this many levels deep.
pub const MAX_SPLIT_DEPTH: usize = 3;

/// No cut leaves fewer than this many words in the first half.
pub const MIN_SPLIT_OFFSET: usize = 3;

/// How far position `i` lies from `center`.
pub open spec fn distance(i: int, center: int) -> int {
    if i < center {
        center - i
    } else {
        i - center
    }
}

/// `p` is, among the first `n` positions of `marks`, the marked position
/// nearest to `center`, and the earliest of those equally near.
pub open spec fn is_closest_in(marks: Seq<bool>, center: int, n: int, p: int) -> bool {
    &&& 0 <= p < n
    &&& marks[p]
    &&& forall|j: int|
        0 <= j < n && #[trigger] marks[j] ==> distance(p, center) < distance(j, center) || (
        distance(p, center) == distance(j, center) && p <= j)
}

/// The marked position of `marks` nearest to `center`, the earliest of those
/// equally near; `None` where nothing is marked.
pub open spec fn closest(marks: Seq<bool>, center: int) -> Option<int> {
    if exists|p: int| is_closest_in(marks, center, marks.len() as int, p) {
        Some(choose|p: int| is_closest_in(marks, center, marks.len() as int, p))
    } else {
        None
    }
}

/// Which of `words` end with one of `punctuation`.
pub open spec fn punctuation_marks(words: Seq<Seq<char>>, punctuation: Seq<Seq<char>>) -> Seq<
    bool,
> {
    Seq::new(words.len(), |i: int| has_any_suffix(words[i], punctuation))
}

/// Which of `words` are, in lower case, one of `lexicon`.
pub open spec fn break_word_marks(words: Seq<Seq<char>>, lexicon: Seq<Seq<char>>) -> Seq<bool> {
    Seq::new(words.len(), |i: int| is_break_word_in(words[i], lexicon))
}

/// Where to cut behind punctuation: the position after the word nearest to
/// `center` that ends with one of `punctuation`.
pub open spec fn punctuation_split(
    words: Seq<Seq<char>>,
    center: int,
    punctuation: Seq<Seq<char>>,
) -> Option<int> {
    match closest(punctuation_marks(words, punctuation), center) {
        Some(p) => Some(p + 1),
        None => None,
    }
}

/// Where to cut in front of a break word: the position of the word nearest
/// to `center` that is one of `lexicon`.
pub open spec fn break_word_split(words: Seq<Seq<char>>, center: int, lexicon: Seq<Seq<char>>)
    -> Option<int> {
    closest(break_word_marks(words, lexicon), center)
}

/// A cut at `p` leaves at least `MIN_SPLIT_OFFSET` words in front and at
/// least one word behind.
pub open spec fn usable_split(p: Option<int>, len: int) -> bool {
    p is Some && MIN_SPLIT_OFFSET <= p.unwrap() < len
}

/// Where `words` are cut: behind the comma nearest to the middle where
/// `use_punctuation` allows it and that cut is usable, else in front of the
/// break word nearest to the middle where that cut is usable, else nowhere.
pub open spec fn split_point(words: Seq<Seq<char>>, use_punctuation: bool) -> Option<int> {
    let center = words.len() as int / 2;
    let by_comma = punctuation_split(words, center, seq![","@]);
    let by_word = break_word_split(words, center, break_word_list());
    if use_punctuation && usable_split(by_comma, words.len() as int) {
        by_comma
    } else if usable_split(by_word, words.len() as int) {
        by_word
    } else {
        None
    }
}

/// The pieces of `chunk`: the chunk itself where it has fewer than
/// `threshold` words, has no place to cut, or `depth` has reached the cap;
/// else the pieces of its two halves, each half written with single spaces.
pub open spec fn split_long(chunk: Seq<char>, threshold: nat, use_punctuation: bool, depth: nat)
    -> Seq<Seq<char>>
    decreases MAX_SPLIT_DEPTH - depth,
{
    let words = words_of(chunk);
    if depth >= MAX_SPLIT_DEPTH || words.len() < threshold {
        seq![chunk]
    } else {
        match split_point(words, use_punctuation) {
            Some(pos) => split_long(
                join_words(words.take(pos)),
                threshold,
                use_punctuation,
                depth + 1,
            ) + split_long(join_words(words.skip(pos)), threshold, use_punctuation, depth + 1),
            None => seq![chunk],
        }
    }
}

/// The most pieces that a chunk entered at `depth` can fall into.
pub open spec fn max_pieces(depth: nat) -> nat
    decreases MAX_SPLIT_DEPTH - depth,
{
    if depth >= MAX_SPLIT_DEPTH {
        1
    } else {
        2 * max_pieces(depth + 1)
    }
}

/// At most one position is the closest.
pub proof fn lemma_closest_unique(marks: Seq<bool>, center: int, n: int, p: int, q: int)
    requires
        is_closest_in(marks, center, n, p),
        is_closest_in(marks, center, n, q),
    ensures
        p == q,
{
}

/// A position that is the closest among all of `marks` is what `closest`
/// names.
pub proof fn lemma_closest_is(marks: Seq<bool>, center: int, p: int)
    requires
        is_closest_in(marks, center, marks.len() as int, p),
    ensures
        closest(marks, center) == Some(p),
{
    let q = choose|q: int| is_closest_in(marks, center, marks.len() as int, q);
    lemma_closest_unique(marks, center, marks.len() as int, p, q);
}

/// Where nothing is marked, `closest` names nothing.
pub proof fn lemma_closest_none(marks: Seq<bool>, center: int)
    requires
        forall|j: int| 0 <= j < marks.len() ==> !#[trigger] marks[j],
    ensures
        closest(marks, center) is None,
{
}

/// Center-splitting ends within the depth cap: a chunk entered at `depth`
/// falls into at least one and at most `max_pieces(depth)` pieces, however
/// many places to cut it holds.
pub proof fn lemma_split_long_bounded(
    chunk: Seq<char>,
    threshold: nat,
    use_punctuation: bool,
    depth: nat,
)
    ensures
        1 <= split_long(chunk, threshold, use_punctuation, depth).len() <= max_pieces(depth),
        max_pieces(depth) <= 8,
    decreases MAX_SPLIT_DEPTH - depth,
{
    let words = words_of(chunk);
    if depth < MAX_SPLIT_DEPTH {
        lemma_split_long_bounded(chunk, threshold, use_punctuation, depth + 1);
        if words.len() >= threshold {
            match split_point(words, use_punctuation) {
                Some(pos) => {
                    lemma_split_long_bounded(
                        join_words(words.take(pos)),
                        threshold,
                        use_punctuation,
                        depth + 1,
                    );
                    lemma_split_long_bounded(
                        join_words(words.skip(pos)),
                        threshold,
                        use_punctuation,
                        depth + 1,
                    );
                },
                None => {},
            }
        }
    }
    assert(max_pieces(3) == 1);
    assert(max_pieces(2) == 2);
    assert(max_pieces(1) == 4);
    assert(max_pieces(0) == 8);
}

/// A usable cut lies inside the words.
pub proof fn lemma_split_point_inside(words: Seq<Seq<char>>, use_punctuation: bool)
    ensures
        split_point(words, use_punctuation) is Some ==> MIN_SPLIT_OFFSET <= split_point(
            words,
            use_punctuation,
        ).unwrap() < words.len(),
{
}

/// Center-splitting only partitions: the words of the pieces, in order, are
/// the words of the chunk.
pub proof fn lemma_split_long_keeps_words(
    chunk: Seq<char>,
    threshold: nat,
    use_punctuation: bool,
    depth: nat,
)
    ensures
        words_of_all(split_long(chunk, threshold, use_punctuation, depth)) == words_of(chunk),
    decreases MAX_SPLIT_DEPTH - depth,
{
    let words = words_of(chunk);
    lemma_words_of_all_single(chunk);
    if depth < MAX_SPLIT_DEPTH && words.len() >= threshold {
        match split_point(words, use_punctuation) {
            Some(pos) => {
                lemma_split_point_inside(words, use_punctuation);
                let first = join_words(words.take(pos));
                let second = join_words(words.skip(pos));
                lemma_split_long_keeps_words(first, threshold, use_punctuation, depth + 1);
                lemma_split_long_keeps_words(second, threshold, use_punctuation, depth + 1);
                lemma_words_of_all_concat(
                    split_long(first, threshold, use_punctuation, depth + 1),
                    split_long(second, threshold, use_punctuation, depth + 1),
                );
                lemma_words_are_words(chunk);
                assert(all_words(words.take(pos)));
                assert(all_words(words.skip(pos)));
                lemma_words_of_join(words.take(pos));
                lemma_words_of_join(words.skip(pos));
                assert(words.take(pos) + words.skip(pos) == words);
            },
            None => {},
        }
    }
}

/// Among `words`, finds the one ending with one of `punctuation` that lies
/// nearest to `center`, and gives the position behind it.
pub fn find_closest_punctuation(words: &[&str], center: usize, punctuation: &[&str]) -> (r: Option<
    usize,
>)
    ensures
        match r {
            Some(p) => punctuation_split(strs(words@), center as int, strs(punctuation@)) == Some(
                p as int,
            ),
            None => punctuation_split(strs(words@), center as int, strs(punctuation@)) is None,
        },
{
    let ghost marks = punctuation_marks(strs(words@), strs(punctuation@));
    let mut best: Option<usize> = None;
    let mut i: usize = 0;
    while i < words.len()
        invariant
            i <= words.len(),
            marks == punctuation_marks(strs(words@), strs(punctuation@)),
            match best {
                Some(b) => is_closest_in(marks, center as int, i as int, b as int),
                None => forall|j: int| 0 <= j < i ==> !#[trigger] marks[j],
            },
        decreases words.len() - i,
    {
        if ends_with_any(words[i], punctuation) {
            assert(marks[i as int]);
            let d = if i < center {
                center - i
            } else {
                i - center
            };
            let nearer = match best {
                Some(b) => d < (if b < center {
                    center - b
                } else {
                    b - center
                }),
                None => true,
            };
            if nearer {
                best = Some(i);
            }
        } else {
            assert(!marks[i as int]);
        }
        i += 1;
    }
    match best {
        Some(b) => {
            proof {
                lemma_closest_is(marks, center as int, b as int);
            }
            Some(b + 1)
        },
        None => {
            proof {
                lemma_closest_none(marks, center as int);
            }
            None
        },
    }
}

/// Among `words`, finds the one that is, in lower case, one of
/// `break_words` and lies nearest to `center`, and gives its position.
pub fn find_closest_break_word(words: &[&str], center: usize, break_words: &[&str]) -> (r: Option<
    usize,
>)
    ensures
        match r {
            Some(p) => break_word_split(strs(words@), center as int, strs(break_words@)) == Some(
                p as int,
            ),
            None => break_word_split(strs(words@), center as int, strs(break_words@)) is None,
        },
{
    let ghost marks = break_word_marks(strs(words@), strs(break_words@));
    let mut best: Option<usize> = None;
    let mut i: usize = 0;
    while i < words.len()
        invariant
            i <= words.len(),
            marks == break_word_marks(strs(words@), strs(break_words@)),
            match best {
                Some(b) => is_closest_in(marks, center as int, i as int, b as int),
                None => forall|j: int| 0 <= j < i ==> !#[trigger] marks[j],
            },
        decreases words.len() - i,
    {
        if word_is_break_word(words[i], break_words) {
            assert(marks[i as int]);
            let d = if i < center {
                center - i
            } else {
                i - center
            };
            let nearer = match best {
                Some(b) => d < (if b < center {
                    center - b
                } else {
                    b - center
                }),
                None => true,
            };
            if nearer {
                best = Some(i);
            }
        } else {
            assert(!marks[i as int]);
        }
        i += 1;
    }
    match best {
        Some(b) => {
            proof {
                lemma_closest_is(marks, center as int, b as int);
            }
            Some(b)
        },
        None => {
            proof {
                lemma_closest_none(marks, center as int);
            }
            None
        },
    }
}

/// Where to cut `words`, if anywhere.
pub fn find_split_point(words: &[&str], use_punctuation: bool) -> (r: Option<usize>)
    ensures
        match r {
            Some(p) => split_point(strs(words@), use_punctuation) == Some(p as int),
            None => split_point(strs(words@), use_punctuation) is None,
        },
{
    let center = words.len() / 2;
    if use_punctuation {
        let commas = [","];
        assert(strs(commas@) =~= seq![","@]);
        if let Some(pos) = find_closest_punctuation(words, center, commas.as_slice()) {
            if pos >= MIN_SPLIT_OFFSET && pos < words.len() {
                return Some(pos);
            }
        }
    }
    let lexicon = break_words();
    if let Some(pos) = find_closest_break_word(words, center, lexicon.as_slice()) {
        if pos >= MIN_SPLIT_OFFSET && pos < words.len() {
            return Some(pos);
        }
    }
    None
}

/// Cuts `chunk` near its middle where it has `threshold` words or more, and
/// each half again, `depth` counting the levels already entered.
pub fn split_long_chunk_with_depth(
    chunk: &str,
    threshold: usize,
    use_punctuation: bool,
    depth: usize,
) -> (r: Vec<String>)
    ensures
        views(r@) == split_long(chunk@, threshold as nat, use_punctuation, depth as nat),
        1 <= r.len() <= max_pieces(depth as nat),
        words_of_all(views(r@)) == words_of(chunk@),
    decreases MAX_SPLIT_DEPTH - depth,
{
    proof {
        lemma_split_long_bounded(chunk@, threshold as nat, use_punctuation, depth as nat);
        lemma_split_long_keeps_words(chunk@, threshold as nat, use_punctuation, depth as nat);
    }
    let mut result: Vec<String> = Vec::new();
    if depth >= MAX_SPLIT_DEPTH {
        result.push(String::from_str(chunk));
        assert(views(result@) =~= seq![chunk@]);
        return result;
    }
    let words = split_words(chunk);
    if words.len() < threshold {
        result.push(String::from_str(chunk));
        assert(views(result@) =~= seq![chunk@]);
        return result;
    }
    let slices = as_strs(&words);
    match find_split_point(slices.as_slice(), use_punctuation) {
        Some(pos) => {
            let first_chunk = join(&words, 0, pos);
            let second_chunk = join(&words, pos, words.len());
            assert(views(words@).subrange(0, pos as int) == views(words@).take(pos as int));
            assert(views(words@).subrange(pos as int, words.len() as int) == views(words@).skip(
                pos as int,
            ));
            let mut first = split_long_chunk_with_depth(
                first_chunk.as_str(),
                threshold,
                use_punctuation,
                depth + 1,
            );
            let mut second = split_long_chunk_with_depth(
                second_chunk.as_str(),
                threshold,
                use_punctuation,
                depth + 1,
            );
            let ghost a = first@;
            let ghost b = second@;
            result.append(&mut first);
            result.append(&mut second);
            assert(views(result@) =~= views(a) + views(b));
            result
        },
        None => {
            result.push(String::from_str(chunk));
            assert(views(result@) =~= seq![chunk@]);
            result
        },
    }
}

} // verus!
