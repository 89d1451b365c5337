//! Segmentation of a text into chunks for speech: cuts at sentence and
//! clause boundaries, center-splitting of long chunks, and migration of
//! trailing break words to the chunk that follows.

use crate::lexicon::{
    break_word_list, break_words, ends_clause, ends_comma, is_break_word, is_numbered_item, is_numbered_list_item,
    word_ends_clause, word_ends_comma, word_is_break_word,
};
use crate::splitter::{
    lemma_split_long_keeps_words, lemma_split_point_inside, split_long,
    split_long_chunk_with_depth, split_point, LONG_CHUNK_THRESHOLD, MAX_SPLIT_DEPTH,
};
use crate::text::{
    all_words, join, join_words, lemma_words_are_words, lemma_words_of_all_concat,
    lemma_words_of_all_single, lemma_words_of_join, lemma_words_of_spaced, lemma_words_of_word,
    split_words, strs, views, words_of, words_of_all,
};
use vstd::prelude::*;
use vstd::string::StringExecFns;

verus! {

/// How many words a chunk is meant to hold where the caller has no wish of
/// its own.
pub const DEFAULT_WORDS_PER_CHUNK: usize = 10;

/// How many leading chunks may be cut at a comma.
pub const PUNCTUATION_CHUNKS: usize = 2;

/// A chunk ends behind word `i` of `words`, the chunk having begun at word
/// `start`: the word closes a sentence or clause, or it ends in a comma and
/// the chunk has reached `target` words.
pub open spec fn breaks_after(words: Seq<Seq<char>>, target: nat, start: int, i: int) -> bool {
    ends_clause(words[i]) || (ends_comma(words[i]) && i + 1 - start >= target)
}

/// The chunks cut at boundaries from `words[start..]`, where `words[start..i]`
/// are already gathered into the chunk under way. A numbered list item opens
/// a new chunk and is gathered without looking at its punctuation; any other
/// word is gathered and ends the chunk where `breaks_after` holds.
pub open spec fn boundary_chunks(words: Seq<Seq<char>>, target: nat, start: int, i: int) -> Seq<
    Seq<char>,
>
    decreases words.len() - i,
{
    if i >= words.len() {
        if start < i {
            seq![join_words(words.subrange(start, i))]
        } else {
            Seq::empty()
        }
    } else if is_numbered_item(words[i]) {
        if start < i {
            seq![join_words(words.subrange(start, i))] + boundary_chunks(words, target, i, i + 1)
        } else {
            boundary_chunks(words, target, start, i + 1)
        }
    } else if breaks_after(words, target, start, i) {
        seq![join_words(words.subrange(start, i + 1))] + boundary_chunks(
            words,
            target,
            i + 1,
            i + 1,
        )
    } else {
        boundary_chunks(words, target, start, i + 1)
    }
}

/// The pieces of the first `n` of `chunks`, each chunk center-split on its
/// own; only the first `PUNCTUATION_CHUNKS` chunks may be cut at a comma.
pub open spec fn split_all(chunks: Seq<Seq<char>>, n: int) -> Seq<Seq<char>>
    decreases n,
{
    if n <= 0 {
        Seq::empty()
    } else {
        split_all(chunks, n - 1) + split_long(
            chunks[n - 1],
            LONG_CHUNK_THRESHOLD as nat,
            n - 1 < PUNCTUATION_CHUNKS,
            0,
        )
    }
}

/// Chunk `i` of `chunks` hands its last word to chunk `i + 1` where that
/// word is a break word and not the only word of its chunk.
pub open spec fn migrate_at(chunks: Seq<Seq<char>>, i: int) -> Seq<Seq<char>> {
    let words = words_of(chunks[i]);
    if words.len() > 1 && is_break_word(words.last()) {
        chunks.update(i, join_words(words.drop_last())).update(
            i + 1,
            words.last() + seq![' '] + chunks[i + 1],
        )
    } else {
        chunks
    }
}

/// One pass of migration over the chunks from `i` on, left to right.
pub open spec fn migrate_from(chunks: Seq<Seq<char>>, i: int) -> Seq<Seq<char>>
    decreases chunks.len() - i,
{
    if i < 0 || i + 1 >= chunks.len() {
        chunks
    } else {
        migrate_from(migrate_at(chunks, i), i + 1)
    }
}

/// The chunks of `text`: cut at boundaries, long chunks center-split, and
/// trailing break words migrated.
pub open spec fn segment(text: Seq<char>, target: nat) -> Seq<Seq<char>> {
    let cut = boundary_chunks(words_of(text), target, 0, 0);
    migrate_from(split_all(cut, cut.len() as int), 0)
}

/// `text` with its whitespace trimmed at both ends and every inner run of
/// whitespace collapsed to one space.
pub open spec fn collapse(text: Seq<char>) -> Seq<char> {
    join_words(words_of(text))
}

/// No word of `words` forces a cut: none opens a numbered list item, none
/// closes a sentence or clause, and no comma stands at or behind word
/// `target`.
pub open spec fn no_forced_break(words: Seq<Seq<char>>, target: nat) -> bool {
    forall|i: int|
        0 <= i < words.len() ==> !is_numbered_item(#[trigger] words[i]) && !breaks_after(
            words,
            target,
            0,
            i,
        )
}

/// Cutting at boundaries only partitions the words.
pub proof fn lemma_boundary_chunks_keep_words(
    words: Seq<Seq<char>>,
    target: nat,
    start: int,
    i: int,
)
    requires
        all_words(words),
        0 <= start <= i <= words.len(),
    ensures
        words_of_all(boundary_chunks(words, target, start, i)) == words.subrange(
            start,
            words.len() as int,
        ),
    decreases words.len() - i,
{
    let len = words.len() as int;
    if i >= len {
        if start < i {
            lemma_words_of_join(words.subrange(start, i));
            lemma_words_of_all_single(join_words(words.subrange(start, i)));
        } else {
            assert(words.subrange(start, len) == Seq::<Seq<char>>::empty());
        }
    } else if is_numbered_item(words[i]) {
        if start < i {
            let head = join_words(words.subrange(start, i));
            lemma_words_of_join(words.subrange(start, i));
            lemma_words_of_all_single(head);
            lemma_boundary_chunks_keep_words(words, target, i, i + 1);
            lemma_words_of_all_concat(seq![head], boundary_chunks(words, target, i, i + 1));
            assert(words.subrange(start, i) + words.subrange(i, len) == words.subrange(
                start,
                len,
            ));
        } else {
            lemma_boundary_chunks_keep_words(words, target, start, i + 1);
        }
    } else if breaks_after(words, target, start, i) {
        let head = join_words(words.subrange(start, i + 1));
        lemma_words_of_join(words.subrange(start, i + 1));
        lemma_words_of_all_single(head);
        lemma_boundary_chunks_keep_words(words, target, i + 1, i + 1);
        lemma_words_of_all_concat(seq![head], boundary_chunks(words, target, i + 1, i + 1));
        assert(words.subrange(start, i + 1) + words.subrange(i + 1, len) == words.subrange(
            start,
            len,
        ));
    } else {
        lemma_boundary_chunks_keep_words(words, target, start, i + 1);
    }
}

/// Center-splitting every chunk only partitions the words.
pub proof fn lemma_split_all_keeps_words(chunks: Seq<Seq<char>>, n: int)
    requires
        0 <= n <= chunks.len(),
    ensures
        words_of_all(split_all(chunks, n)) == words_of_all(chunks.take(n)),
    decreases n,
{
    if n > 0 {
        lemma_split_all_keeps_words(chunks, n - 1);
        let pieces = split_long(
            chunks[n - 1],
            LONG_CHUNK_THRESHOLD as nat,
            n - 1 < PUNCTUATION_CHUNKS,
            0,
        );
        lemma_split_long_keeps_words(
            chunks[n - 1],
            LONG_CHUNK_THRESHOLD as nat,
            n - 1 < PUNCTUATION_CHUNKS,
            0,
        );
        lemma_words_of_all_concat(split_all(chunks, n - 1), pieces);
        assert(chunks.take(n).drop_last() == chunks.take(n - 1));
    } else {
        assert(chunks.take(n).len() == 0);
    }
}

/// Handing a trailing break word to the next chunk keeps the words and
/// their order.
pub proof fn lemma_migrate_at_keeps_words(chunks: Seq<Seq<char>>, i: int)
    requires
        0 <= i,
        i + 1 < chunks.len(),
    ensures
        migrate_at(chunks, i).len() == chunks.len(),
        words_of_all(migrate_at(chunks, i)) == words_of_all(chunks),
{
    let words = words_of(chunks[i]);
    if words.len() > 1 && is_break_word(words.last()) {
        let left = join_words(words.drop_last());
        let right = words.last() + seq![' '] + chunks[i + 1];
        let pre = chunks.take(i);
        let post = chunks.skip(i + 2);
        let after = migrate_at(chunks, i);
        assert(chunks == pre + seq![chunks[i]] + seq![chunks[i + 1]] + post);
        assert(after == pre + seq![left] + seq![right] + post);
        lemma_words_of_all_concat(pre, seq![chunks[i]]);
        lemma_words_of_all_concat(pre + seq![chunks[i]], seq![chunks[i + 1]]);
        lemma_words_of_all_concat(pre + seq![chunks[i]] + seq![chunks[i + 1]], post);
        lemma_words_of_all_concat(pre, seq![left]);
        lemma_words_of_all_concat(pre + seq![left], seq![right]);
        lemma_words_of_all_concat(pre + seq![left] + seq![right], post);
        lemma_words_of_all_single(chunks[i]);
        lemma_words_of_all_single(chunks[i + 1]);
        lemma_words_of_all_single(left);
        lemma_words_of_all_single(right);
        lemma_words_are_words(chunks[i]);
        assert(all_words(words.drop_last()));
        lemma_words_of_join(words.drop_last());
        lemma_words_of_spaced(words.last(), chunks[i + 1]);
        lemma_words_of_word(words.last());
        assert(words.drop_last() + seq![words.last()] == words);
        assert(words_of(left) + words_of(right) == words + words_of(chunks[i + 1])) by {
            assert(words.drop_last() + (seq![words.last()] + words_of(chunks[i + 1])) == (
            words.drop_last() + seq![words.last()]) + words_of(chunks[i + 1]));
        }
        let w_pre = words_of_all(pre);
        let w_post = words_of_all(post);
        assert(w_pre + words_of(left) + words_of(right) + w_post == w_pre + words + words_of(
            chunks[i + 1],
        ) + w_post) by {
            assert(w_pre + words_of(left) + words_of(right) == w_pre + (words_of(left) + words_of(
                right,
            )));
            assert(w_pre + words + words_of(chunks[i + 1]) == w_pre + (words + words_of(
                chunks[i + 1],
            )));
        }
    }
}

/// Migration keeps the number of chunks, the words and their order.
pub proof fn lemma_migrate_keeps_words(chunks: Seq<Seq<char>>, i: int)
    requires
        0 <= i,
    ensures
        migrate_from(chunks, i).len() == chunks.len(),
        words_of_all(migrate_from(chunks, i)) == words_of_all(chunks),
    decreases chunks.len() - i,
{
    if i + 1 < chunks.len() {
        lemma_migrate_at_keeps_words(chunks, i);
        lemma_migrate_keeps_words(migrate_at(chunks, i), i + 1);
    }
}

/// The words of chunks joined with single spaces are the words of the
/// chunks.
pub proof fn lemma_words_of_joined_chunks(chunks: Seq<Seq<char>>)
    ensures
        words_of(join_words(chunks)) == words_of_all(chunks),
    decreases chunks.len(),
{
    if chunks.len() == 0 {
    } else if chunks.len() == 1 {
        assert(chunks == seq![chunks[0]]);
        lemma_words_of_all_single(chunks[0]);
    } else {
        lemma_words_of_joined_chunks(chunks.drop_last());
        lemma_words_of_spaced(join_words(chunks.drop_last()), chunks.last());
    }
}

/// Segmentation creates, drops and reorders no word: the words of the
/// chunks, in order, are the words of the text, and the chunks written one
/// after another with single spaces collapse to the collapsed text.
pub proof fn lemma_segment_round_trip(text: Seq<char>, target: nat)
    ensures
        words_of_all(segment(text, target)) == words_of(text),
        collapse(join_words(segment(text, target))) == collapse(text),
{
    let words = words_of(text);
    let cut = boundary_chunks(words, target, 0, 0);
    let pieces = split_all(cut, cut.len() as int);
    lemma_words_are_words(text);
    lemma_boundary_chunks_keep_words(words, target, 0, 0);
    assert(words.subrange(0, words.len() as int) == words);
    lemma_split_all_keeps_words(cut, cut.len() as int);
    assert(cut.take(cut.len() as int) == cut);
    lemma_migrate_keeps_words(pieces, 0);
    lemma_words_of_joined_chunks(segment(text, target));
}

/// Every one of `chunks` holds at least one word.
pub open spec fn all_have_words(chunks: Seq<Seq<char>>) -> bool {
    forall|i: int| 0 <= i < chunks.len() ==> words_of(#[trigger] chunks[i]).len() > 0
}

/// Cutting at boundaries makes no chunk without a word.
pub proof fn lemma_boundary_chunks_have_words(
    words: Seq<Seq<char>>,
    target: nat,
    start: int,
    i: int,
)
    requires
        all_words(words),
        0 <= start <= i <= words.len(),
    ensures
        all_have_words(boundary_chunks(words, target, start, i)),
    decreases words.len() - i,
{
    if i >= words.len() {
        if start < i {
            lemma_words_of_join(words.subrange(start, i));
        }
    } else if is_numbered_item(words[i]) {
        if start < i {
            lemma_words_of_join(words.subrange(start, i));
            lemma_boundary_chunks_have_words(words, target, i, i + 1);
        } else {
            lemma_boundary_chunks_have_words(words, target, start, i + 1);
        }
    } else if breaks_after(words, target, start, i) {
        lemma_words_of_join(words.subrange(start, i + 1));
        lemma_boundary_chunks_have_words(words, target, i + 1, i + 1);
    } else {
        lemma_boundary_chunks_have_words(words, target, start, i + 1);
    }
}

/// Center-splitting a chunk that holds a word makes no piece without one.
pub proof fn lemma_split_long_has_words(
    chunk: Seq<char>,
    threshold: nat,
    use_punctuation: bool,
    depth: nat,
)
    requires
        words_of(chunk).len() > 0,
    ensures
        all_have_words(split_long(chunk, threshold, use_punctuation, depth)),
    decreases MAX_SPLIT_DEPTH - depth,
{
    let words = words_of(chunk);
    if depth < MAX_SPLIT_DEPTH && words.len() >= threshold {
        match split_point(words, use_punctuation) {
            Some(pos) => {
                lemma_split_point_inside(words, use_punctuation);
                lemma_words_are_words(chunk);
                assert(all_words(words.take(pos)));
                assert(all_words(words.skip(pos)));
                lemma_words_of_join(words.take(pos));
                lemma_words_of_join(words.skip(pos));
                lemma_split_long_has_words(
                    join_words(words.take(pos)),
                    threshold,
                    use_punctuation,
                    depth + 1,
                );
                lemma_split_long_has_words(
                    join_words(words.skip(pos)),
                    threshold,
                    use_punctuation,
                    depth + 1,
                );
            },
            None => {},
        }
    }
}

/// Center-splitting chunks that hold words makes no piece without one.
pub proof fn lemma_split_all_has_words(chunks: Seq<Seq<char>>, n: int)
    requires
        all_have_words(chunks),
        0 <= n <= chunks.len(),
    ensures
        all_have_words(split_all(chunks, n)),
    decreases n,
{
    if n > 0 {
        lemma_split_all_has_words(chunks, n - 1);
        lemma_split_long_has_words(
            chunks[n - 1],
            LONG_CHUNK_THRESHOLD as nat,
            n - 1 < PUNCTUATION_CHUNKS,
            0,
        );
    }
}

/// Migration empties no chunk.
pub proof fn lemma_migrate_has_words(chunks: Seq<Seq<char>>, i: int)
    requires
        all_have_words(chunks),
        0 <= i,
    ensures
        all_have_words(migrate_from(chunks, i)),
    decreases chunks.len() - i,
{
    if i + 1 < chunks.len() {
        let words = words_of(chunks[i]);
        let after = migrate_at(chunks, i);
        if words.len() > 1 && is_break_word(words.last()) {
            lemma_words_are_words(chunks[i]);
            assert(all_words(words.drop_last()));
            lemma_words_of_join(words.drop_last());
            lemma_words_of_spaced(words.last(), chunks[i + 1]);
            lemma_words_of_word(words.last());
            assert forall|k: int| 0 <= k < after.len() implies words_of(#[trigger] after[k]).len()
                > 0 by {
                if k != i && k != i + 1 {
                    assert(after[k] == chunks[k]);
                }
            }
        }
        lemma_migrate_has_words(after, i + 1);
    }
}

/// Every chunk of a text holds at least one word: none is empty or blank.
pub proof fn lemma_segment_chunks_have_words(text: Seq<char>, target: nat)
    ensures
        all_have_words(segment(text, target)),
{
    let words = words_of(text);
    let cut = boundary_chunks(words, target, 0, 0);
    lemma_words_are_words(text);
    lemma_boundary_chunks_have_words(words, target, 0, 0);
    lemma_split_all_has_words(cut, cut.len() as int);
    lemma_migrate_has_words(split_all(cut, cut.len() as int), 0);
}

/// A text without words, empty or all whitespace, has no chunks.
pub proof fn lemma_no_words_no_chunks(text: Seq<char>, target: nat)
    requires
        words_of(text).len() == 0,
    ensures
        segment(text, target) == Seq::<Seq<char>>::empty(),
{
    let cut = boundary_chunks(words_of(text), target, 0, 0);
    assert(cut.len() == 0);
    assert(split_all(cut, 0) == Seq::<Seq<char>>::empty());
}

/// A text whose words force no cut is gathered whole by the boundary pass.
pub proof fn lemma_unbroken_gathers_all(words: Seq<Seq<char>>, target: nat, i: int)
    requires
        words.len() > 0,
        0 <= i <= words.len(),
        no_forced_break(words, target),
    ensures
        boundary_chunks(words, target, 0, i) == seq![join_words(words)],
    decreases words.len() - i,
{
    if i >= words.len() {
        assert(words.subrange(0, i) == words);
    } else {
        assert(!is_numbered_item(words[i]) && !breaks_after(words, target, 0, i));
        lemma_unbroken_gathers_all(words, target, i + 1);
    }
}

/// A short text without forced breaks stays whole: with at least one word,
/// fewer words than the long-chunk threshold, and no word that forces a
/// cut, segmentation gives exactly one chunk, the collapsed text.
pub proof fn lemma_short_text_is_one_chunk(text: Seq<char>, target: nat)
    requires
        0 < words_of(text).len() < LONG_CHUNK_THRESHOLD,
        no_forced_break(words_of(text), target),
    ensures
        segment(text, target) == seq![collapse(text)],
{
    let words = words_of(text);
    let cut = boundary_chunks(words, target, 0, 0);
    lemma_unbroken_gathers_all(words, target, 0);
    lemma_words_are_words(text);
    lemma_words_of_join(words);
    assert(split_all(cut, 0) == Seq::<Seq<char>>::empty());
    assert(split_all(cut, 1) == split_all(cut, 0) + split_long(
        cut[0],
        LONG_CHUNK_THRESHOLD as nat,
        true,
        0,
    ));
    assert(split_long(cut[0], LONG_CHUNK_THRESHOLD as nat, true, 0) == seq![cut[0]]);
    assert(Seq::<Seq<char>>::empty() + seq![cut[0]] == seq![cut[0]]);
}

/// Cuts `words` into chunks at numbered list items, at the ends of
/// sentences and clauses, and at commas once a chunk holds
/// `words_per_chunk` words.
pub fn split_at_boundaries(words: &Vec<String>, words_per_chunk: usize) -> (chunks: Vec<String>)
    ensures
        views(chunks@) == boundary_chunks(views(words@), words_per_chunk as nat, 0, 0),
{
    let ghost w = views(words@);
    let ghost target = words_per_chunk as nat;
    let mut chunks: Vec<String> = Vec::new();
    let mut start: usize = 0;
    let mut i: usize = 0;
    assert(views(chunks@) + boundary_chunks(w, target, 0, 0) == boundary_chunks(w, target, 0, 0));
    while i < words.len()
        invariant
            start <= i <= words.len(),
            w == views(words@),
            target == words_per_chunk as nat,
            boundary_chunks(w, target, 0, 0) == views(chunks@) + boundary_chunks(
                w,
                target,
                start as int,
                i as int,
            ),
        decreases words.len() - i,
    {
        let word = words[i].as_str();
        let ghost before = views(chunks@);
        if is_numbered_list_item(word) {
            if start < i {
                let chunk = join(words, start, i);
                chunks.push(chunk);
                proof {
                    let rest = boundary_chunks(w, target, i as int, i + 1);
                    assert(views(chunks@) == before.push(chunk@));
                    assert(before + (seq![chunk@] + rest) == before.push(chunk@) + rest);
                }
                start = i;
            }
        } else if word_ends_clause(word) || (word_ends_comma(word) && i + 1 - start
            >= words_per_chunk) {
            let chunk = join(words, start, i + 1);
            chunks.push(chunk);
            proof {
                let rest = boundary_chunks(w, target, i + 1, i + 1);
                assert(views(chunks@) == before.push(chunk@));
                assert(before + (seq![chunk@] + rest) == before.push(chunk@) + rest);
            }
            start = i + 1;
        }
        i += 1;
    }
    if start < i {
        let ghost before = views(chunks@);
        let chunk = join(words, start, i);
        chunks.push(chunk);
        assert(views(chunks@) == before.push(chunk@));
        assert(before + seq![chunk@] == before.push(chunk@));
    } else {
        assert(views(chunks@) + Seq::<Seq<char>>::empty() == views(chunks@));
    }
    chunks
}

/// Center-splits every chunk that is long, the first chunks also at commas.
pub fn split_long_chunks(chunks: &Vec<String>) -> (pieces: Vec<String>)
    ensures
        views(pieces@) == split_all(views(chunks@), chunks.len() as int),
{
    let mut pieces: Vec<String> = Vec::new();
    let mut index: usize = 0;
    assert(views(pieces@) == split_all(views(chunks@), 0));
    while index < chunks.len()
        invariant
            index <= chunks.len(),
            views(pieces@) == split_all(views(chunks@), index as int),
        decreases chunks.len() - index,
    {
        let use_punctuation = index < PUNCTUATION_CHUNKS;
        let ghost before = views(pieces@);
        let mut split = split_long_chunk_with_depth(
            chunks[index].as_str(),
            LONG_CHUNK_THRESHOLD,
            use_punctuation,
            0,
        );
        let ghost added = views(split@);
        pieces.append(&mut split);
        assert(views(pieces@) == before + added);
        index += 1;
    }
    pieces
}

/// Moves each trailing break word to the front of the chunk that follows,
/// in one pass from left to right.
pub fn migrate_break_words(chunks: &mut Vec<String>)
    ensures
        views(final(chunks)@) == migrate_from(views(old(chunks)@), 0),
{
    let lexicon = break_words();
    let count = chunks.len();
    if count == 0 {
        return ;
    }
    let mut i: usize = 0;
    while i < count - 1
        invariant
            count == chunks.len(),
            count > 0,
            strs(lexicon@) == break_word_list(),
            migrate_from(views(old(chunks)@), 0) == migrate_from(views(chunks@), i as int),
        decreases chunks.len() - i,
    {
        let ghost before = views(chunks@);
        let words = split_words(chunks[i].as_str());
        let held = words.len();
        if held > 1 && word_is_break_word(
            words[held - 1].as_str(),
            lexicon.as_slice(),
        ) {
            let shortened = join(&words, 0, held - 1);
            let mut extended = words[held - 1].clone();
            extended.append(" ");
            extended.append(chunks[i + 1].as_str());
            proof {
                reveal_strlit(" ");
                assert(" "@ == seq![' ']);
                assert(views(words@).subrange(0, held - 1) == views(words@).drop_last());
            }
            chunks.set(i, shortened);
            chunks.set(i + 1, extended);
            assert(views(chunks@) == migrate_at(before, i as int));
        } else {
            assert(views(chunks@) == migrate_at(before, i as int));
        }
        proof {
            lemma_migrate_at_keeps_words(before, i as int);
        }
        i += 1;
    }
}

/// Splits `text` into chunks for speech. Sentence and clause boundaries come
/// first, then long chunks are cut near their middle, then trailing break
/// words move to the chunk that follows.
pub fn split_text_into_speech_chunks(text: &str, words_per_chunk: usize) -> (chunks: Vec<String>)
    ensures
        views(chunks@) == segment(text@, words_per_chunk as nat),
        words_of_all(views(chunks@)) == words_of(text@),
        all_have_words(views(chunks@)),
        words_of(text@).len() == 0 ==> chunks.len() == 0,
{
    proof {
        lemma_segment_round_trip(text@, words_per_chunk as nat);
        lemma_segment_chunks_have_words(text@, words_per_chunk as nat);
    }
    let words = split_words(text);
    let cut = split_at_boundaries(&words, words_per_chunk);
    let mut chunks = split_long_chunks(&cut);
    migrate_break_words(&mut chunks);
    proof {
        if words_of(text@).len() == 0 {
            lemma_no_words_no_chunks(text@, words_per_chunk as nat);
        }
    }
    chunks
}

} // verus!
