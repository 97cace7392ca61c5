//! A ranking under way, written as one line of text.
//!
//! The line names the items, separated by commas, and then, after an
//! exclamation mark, the answers given so far: `a` for "the first ranks
//! before the second", `b` for the opposite.  The mark is left out while
//! there is no answer, and a leading `#` is not part of the line.  Items are
//! taken as they come, as bytes; whoever builds a line sees to it that no
//! item holds a comma or an exclamation mark.

use vstd::prelude::*;

verus! {

/// The byte `#`, which may lead a line.
pub const HASH: u8 = 0x23;

/// The byte `,`, which separates the items.
pub const COMMA: u8 = 0x2c;

/// The byte `!`, which separates the items from the answers.
pub const MARK: u8 = 0x21;

/// The byte `a`, for the answer "yes".
pub const YES: u8 = 0x61;

/// The byte `b`, for the answer "no".
pub const NO: u8 = 0x62;

/// The letter for an answer.
pub open spec fn letter(answer: bool) -> u8 {
    if answer {
        YES
    } else {
        NO
    }
}

/// The answers as letters.
pub open spec fn spec_encode_answers(answers: Seq<bool>) -> Seq<u8> {
    Seq::new(answers.len(), |i: int| letter(answers[i]))
}

/// The answers that a text holds: one for every `a` and `b`, in order;
/// other bytes count for nothing.
pub open spec fn spec_decode_answers(text: Seq<u8>) -> Seq<bool>
    decreases text.len(),
{
    if text.len() == 0 {
        Seq::empty()
    } else if text.last() == YES {
        spec_decode_answers(text.drop_last()).push(true)
    } else if text.last() == NO {
        spec_decode_answers(text.drop_last()).push(false)
    } else {
        spec_decode_answers(text.drop_last())
    }
}

/// The first position at or after `from` that holds `mark`, or the length
/// of the text if there is none.
pub open spec fn find_from(text: Seq<u8>, mark: u8, from: int) -> int
    decreases text.len() - from,
{
    if from >= text.len() {
        text.len() as int
    } else if text[from] == mark {
        from
    } else {
        find_from(text, mark, from + 1)
    }
}

/// The pieces of the text from `from` on that `mark` separates.  A text
/// without `mark` is one piece; a `mark` at the end is followed by an empty
/// piece.
pub open spec fn split_from(text: Seq<u8>, mark: u8, from: int) -> Seq<Seq<u8>>
    decreases text.len() - from,
{
    let to = find_from(text, mark, from);
    if to < from || to >= text.len() {
        seq![text.subrange(from, text.len() as int)]
    } else {
        seq![text.subrange(from, to)] + split_from(text, mark, to + 1)
    }
}

/// The pieces that are not empty.
pub open spec fn kept(pieces: Seq<Seq<u8>>) -> Seq<Seq<u8>>
    decreases pieces.len(),
{
    if pieces.len() == 0 {
        Seq::empty()
    } else if pieces.last().len() > 0 {
        kept(pieces.drop_last()).push(pieces.last())
    } else {
        kept(pieces.drop_last())
    }
}

/// The pieces put together with `mark` between them.
pub open spec fn joined(pieces: Seq<Seq<u8>>, mark: u8) -> Seq<u8>
    decreases pieces.len(),
{
    if pieces.len() == 0 {
        Seq::empty()
    } else if pieces.len() == 1 {
        pieces[0]
    } else {
        joined(pieces.drop_last(), mark) + seq![mark] + pieces.last()
    }
}

/// The texts that the vectors hold.
pub open spec fn texts(items: Seq<Vec<u8>>) -> Seq<Seq<u8>> {
    Seq::new(items.len(), |i: int| items[i]@)
}

/// The line without a leading `#`.
pub open spec fn body_of(line: Seq<u8>) -> Seq<u8> {
    if line.len() > 0 && line[0] == HASH {
        line.skip(1)
    } else {
        line
    }
}

/// The items and the answers that a line holds: the items are the pieces
/// between commas up to the first exclamation mark, the empty ones left
/// out; the answers are the letters after that mark.
pub open spec fn spec_parse_hash(line: Seq<u8>) -> (Seq<Seq<u8>>, Seq<bool>) {
    let body = body_of(line);
    let cut = find_from(body, MARK, 0);
    if body.len() == 0 {
        (Seq::empty(), Seq::empty())
    } else {
        (
            kept(split_from(body.take(cut), COMMA, 0)),
            spec_decode_answers(
                if cut < body.len() {
                    body.skip(cut + 1)
                } else {
                    Seq::empty()
                },
            ),
        )
    }
}

/// The line for the items and the answers.
pub open spec fn spec_build_hash(items: Seq<Seq<u8>>, answers: Seq<bool>) -> Seq<u8> {
    if answers.len() == 0 {
        joined(items, COMMA)
    } else {
        joined(items, COMMA) + seq![MARK] + spec_encode_answers(answers)
    }
}

/// Letters written for answers are read back as the same answers.
pub proof fn lemma_decode_encode(answers: Seq<bool>)
    ensures
        spec_decode_answers(spec_encode_answers(answers)) == answers,
    decreases answers.len(),
{
    let text = spec_encode_answers(answers);
    if answers.len() > 0 {
        lemma_decode_encode(answers.drop_last());
        assert(text.drop_last() =~= spec_encode_answers(answers.drop_last()));
        assert(answers.drop_last().push(answers.last()) =~= answers);
    } else {
        assert(spec_decode_answers(text) =~= answers);
    }
}

/// `find_from` stays between `from` and the end of the text, finds `mark`
/// if it stops before the end, and passes over no `mark`.
pub proof fn lemma_find_from(text: Seq<u8>, mark: u8, from: int)
    requires
        0 <= from <= text.len(),
    ensures
        from <= find_from(text, mark, from) <= text.len(),
        find_from(text, mark, from) < text.len() ==> text[find_from(text, mark, from)] == mark,
        forall|j: int| from <= j < find_from(text, mark, from) ==> text[j] != mark,
    decreases text.len() - from,
{
    if from < text.len() && text[from] != mark {
        lemma_find_from(text, mark, from + 1);
    }
}

/// A search that begins within a stretch without `mark` finds what a
/// search from the beginning of the stretch finds.
pub proof fn lemma_find_skips(text: Seq<u8>, mark: u8, from: int, at: int)
    requires
        0 <= from <= at <= text.len(),
        forall|j: int| from <= j < at ==> text[j] != mark,
    ensures
        find_from(text, mark, from) == find_from(text, mark, at),
    decreases at - from,
{
    if from < at {
        lemma_find_skips(text, mark, from + 1, at);
    }
}

/// The kept pieces of a list with one piece more.
pub proof fn lemma_kept_push(pieces: Seq<Seq<u8>>, piece: Seq<u8>)
    ensures
        kept(pieces.push(piece)) == if piece.len() > 0 {
            kept(pieces).push(piece)
        } else {
            kept(pieces)
        },
{
    assert(pieces.push(piece).drop_last() =~= pieces);
}

/// The position that holds the first `mark` at or after `from` is what
/// `find_from` finds.
pub proof fn lemma_find_is(text: Seq<u8>, mark: u8, from: int, at: int)
    requires
        0 <= from <= at <= text.len(),
        forall|j: int| from <= j < at ==> text[j] != mark,
        at < text.len() ==> text[at] == mark,
    ensures
        find_from(text, mark, from) == at,
{
    lemma_find_skips(text, mark, from, at);
}

/// A text without `mark` behind a text and a `mark` is one more piece.
pub proof fn lemma_split_append(head: Seq<u8>, mark: u8, last: Seq<u8>, from: int)
    requires
        0 <= from <= head.len(),
        forall|j: int| 0 <= j < last.len() ==> last[j] != mark,
    ensures
        split_from(head + seq![mark] + last, mark, from) == split_from(head, mark, from).push(last),
    decreases head.len() - from,
{
    let whole = head + seq![mark] + last;
    let to = find_from(head, mark, from);
    lemma_find_from(head, mark, from);
    assert forall|j: int| from <= j < to implies whole[j] != mark by {
        assert(whole[j] == head[j]);
    }
    if to < head.len() {
        assert(whole[to] == head[to]);
        lemma_find_is(whole, mark, from, to);
        lemma_split_append(head, mark, last, to + 1);
        assert(whole.subrange(from, to) =~= head.subrange(from, to));
        assert(split_from(whole, mark, from) == seq![head.subrange(from, to)] + split_from(
            whole,
            mark,
            to + 1,
        ));
        assert(split_from(head, mark, from) == seq![head.subrange(from, to)] + split_from(
            head,
            mark,
            to + 1,
        ));
        assert(seq![head.subrange(from, to)] + split_from(head, mark, to + 1).push(last) =~= (
        seq![head.subrange(from, to)] + split_from(head, mark, to + 1)).push(last));
    } else {
        let mid = head.len() as int;
        assert(whole[mid] == mark);
        lemma_find_is(whole, mark, from, mid);
        assert forall|j: int| mid + 1 <= j < whole.len() implies whole[j] != mark by {
            assert(whole[j] == last[j - mid - 1]);
        }
        lemma_find_is(whole, mark, mid + 1, whole.len() as int);
        assert(whole.subrange(from, mid) =~= head.subrange(from, mid));
        assert(whole.subrange(mid + 1, whole.len() as int) =~= last);
        assert(split_from(whole, mark, mid + 1) == seq![last]);
        assert(split_from(whole, mark, from) == seq![head.subrange(from, mid)] + seq![last]);
        assert(split_from(head, mark, from) == seq![head.subrange(from, mid)]);
        assert(seq![head.subrange(from, mid)].push(last) =~= seq![head.subrange(from, mid)]
            + seq![last]);
    }
}

/// The items of a line stay clear of the bytes that the line is built
/// with: none is empty, and none holds a comma, an exclamation mark or a
/// `#`.
pub open spec fn is_clean(items: Seq<Seq<u8>>) -> bool {
    forall|i: int|
        0 <= i < items.len() ==> (#[trigger] items[i]).len() > 0 && forall|j: int|
            0 <= j < items[i].len() ==> items[i][j] != COMMA && items[i][j] != MARK
                && items[i][j] != HASH
}

/// Clean items put together with commas hold no exclamation mark and no
/// `#`, and come apart at the commas into the same items.
pub proof fn lemma_split_joined(items: Seq<Seq<u8>>)
    requires
        is_clean(items),
        items.len() > 0,
    ensures
        split_from(joined(items, COMMA), COMMA, 0) == items,
        joined(items, COMMA).len() > 0,
        forall|j: int|
            0 <= j < joined(items, COMMA).len() ==> joined(items, COMMA)[j] != MARK && joined(
                items,
                COMMA,
            )[j] != HASH,
    decreases items.len(),
{
    let line = joined(items, COMMA);
    let last = items.last();
    assert(last == items[items.len() - 1]);
    if items.len() == 1 {
        assert(line == items[0]);
        lemma_find_is(line, COMMA, 0, line.len() as int);
        assert(line.subrange(0, line.len() as int) =~= line);
        assert(seq![line] =~= items);
    } else {
        let front = items.drop_last();
        assert forall|i: int| 0 <= i < front.len() implies (#[trigger] front[i]).len() > 0
            && forall|j: int|
            0 <= j < front[i].len() ==> front[i][j] != COMMA && front[i][j] != MARK && front[i][j]
                != HASH by {
            assert(front[i] == items[i]);
        }
        lemma_split_joined(front);
        let head = joined(front, COMMA);
        lemma_split_append(head, COMMA, last, 0);
        assert(front.push(last) =~= items);
        assert forall|j: int| 0 <= j < line.len() implies line[j] != MARK && line[j] != HASH by {
            if j < head.len() {
                assert(line[j] == head[j]);
            } else if j > head.len() {
                assert(line[j] == last[j - head.len() - 1]);
            }
        }
    }
}

/// Of pieces none of which is empty, all are kept.
pub proof fn lemma_kept_all(pieces: Seq<Seq<u8>>)
    requires
        forall|i: int| 0 <= i < pieces.len() ==> (#[trigger] pieces[i]).len() > 0,
    ensures
        kept(pieces) == pieces,
    decreases pieces.len(),
{
    if pieces.len() > 0 {
        let front = pieces.drop_last();
        assert forall|i: int| 0 <= i < front.len() implies (#[trigger] front[i]).len() > 0 by {
            assert(front[i] == pieces[i]);
        }
        lemma_kept_all(front);
        assert(pieces.last() == pieces[pieces.len() - 1]);
        assert(front.push(pieces.last()) =~= pieces);
    }
}

/// A line written for clean items and any answers is read back as the same
/// items and the same answers.
pub proof fn lemma_parse_build(items: Seq<Seq<u8>>, answers: Seq<bool>)
    requires
        is_clean(items),
    ensures
        spec_parse_hash(spec_build_hash(items, answers)) == (items, answers),
{
    let line = spec_build_hash(items, answers);
    let head = joined(items, COMMA);
    let letters = spec_encode_answers(answers);
    lemma_decode_encode(answers);
    lemma_kept_all(items);
    if items.len() > 0 {
        lemma_split_joined(items);
    } else {
        lemma_find_is(head, COMMA, 0, 0);
        assert(head.subrange(0, 0) =~= Seq::<u8>::empty());
        assert(kept(seq![Seq::<u8>::empty()]) =~= Seq::<Seq<u8>>::empty()) by {
            lemma_kept_push(Seq::empty(), Seq::<u8>::empty());
            assert(Seq::<Seq<u8>>::empty().push(Seq::<u8>::empty()) =~= seq![Seq::<u8>::empty()]);
        }
    }
    if answers.len() == 0 {
        assert(line == head);
        if line.len() > 0 {
            assert(body_of(line) == line);
            lemma_find_is(line, MARK, 0, line.len() as int);
            assert(line.take(line.len() as int) =~= line);
            assert(spec_decode_answers(Seq::<u8>::empty()) =~= answers);
        } else {
            assert(items =~= Seq::<Seq<u8>>::empty());
            assert(answers =~= Seq::<bool>::empty());
        }
    } else {
        let at = head.len() as int;
        assert(line[at] == MARK);
        assert(line[0] != HASH) by {
            if at > 0 {
                assert(line[0] == head[0]);
            }
        }
        assert(body_of(line) == line);
        assert forall|j: int| 0 <= j < at implies line[j] != MARK by {
            assert(line[j] == head[j]);
        }
        lemma_find_is(line, MARK, 0, at);
        assert(line.take(at) =~= head);
        assert(line.skip(at + 1) =~= letters);
    }
}

/// Writes the answers as letters: `a` for `true`, `b` for `false`.
pub fn encode_answers(answers: &[bool]) -> (text: Vec<u8>)
    ensures
        text@ == spec_encode_answers(answers@),
{
    let mut text: Vec<u8> = Vec::with_capacity(answers.len());
    let mut i: usize = 0;
    while i < answers.len()
        invariant
            i <= answers.len(),
            text@ == spec_encode_answers(answers@.take(i as int)),
        decreases answers.len() - i,
    {
        text.push(if answers[i] {
            YES
        } else {
            NO
        });
        i += 1;
        assert(text@ =~= spec_encode_answers(answers@.take(i as int)));
    }
    assert(answers@.take(answers.len() as int) =~= answers@);
    text
}

/// Reads the answers that a text holds: `true` for every `a`, `false` for
/// every `b`, in order; all other bytes are passed over.
pub fn decode_answers(text: &[u8]) -> (answers: Vec<bool>)
    ensures
        answers@ == spec_decode_answers(text@),
{
    let mut answers: Vec<bool> = Vec::new();
    let mut i: usize = 0;
    while i < text.len()
        invariant
            i <= text.len(),
            answers@ == spec_decode_answers(text@.take(i as int)),
        decreases text.len() - i,
    {
        assert(text@.take(i + 1).drop_last() =~= text@.take(i as int));
        let c: u8 = text[i];
        if c == YES {
            answers.push(true);
        } else if c == NO {
            answers.push(false);
        }
        i += 1;
    }
    assert(text@.take(text.len() as int) =~= text@);
    answers
}

/// Reads a line: returns the items that it names, as they stand in the
/// line, and the answers that it holds.  An empty line, with or without a
/// leading `#`, holds neither.
pub fn parse_hash(line: &[u8]) -> (parsed: (Vec<Vec<u8>>, Vec<bool>))
    ensures
        texts(parsed.0@) == spec_parse_hash(line@).0,
        parsed.1@ == spec_parse_hash(line@).1,
{
    let mut items: Vec<Vec<u8>> = Vec::new();
    let mut answers: Vec<bool> = Vec::new();
    let begin: usize = if line.len() > 0 && line[0] == HASH {
        1
    } else {
        0
    };
    let ghost body = body_of(line@);
    assert(body =~= line@.skip(begin as int));
    if begin == line.len() {
        assert(texts(items@) =~= Seq::<Seq<u8>>::empty());
        return (items, answers);
    }
    // the items end at the first mark
    let mut cut: usize = begin;
    while cut < line.len() && line[cut] != MARK
        invariant
            begin <= cut <= line.len(),
            body == line@.skip(begin as int),
            forall|j: int| 0 <= j < cut - begin ==> body[j] != MARK,
        decreases line.len() - cut,
    {
        cut += 1;
    }
    let ghost stop = (cut - begin) as int;
    proof {
        lemma_find_skips(body, MARK, 0, stop);
    }
    let ghost part = body.take(stop);
    // the pieces between commas
    let ghost mut done: Seq<Seq<u8>> = Seq::empty();
    let mut piece: Vec<u8> = Vec::new();
    let ghost mut since: int = 0;
    let mut i: usize = begin;
    proof {
        assert(texts(items@) =~= kept(done));
        assert(done + split_from(part, COMMA, since) =~= split_from(part, COMMA, 0));
        assert(piece@ =~= part.subrange(since, 0));
    }
    while i < cut
        invariant
            begin <= i <= cut <= line.len(),
            body == line@.skip(begin as int),
            part == body.take(stop),
            stop == cut - begin,
            0 <= since <= i - begin,
            texts(items@) == kept(done),
            done + split_from(part, COMMA, since) == split_from(part, COMMA, 0),
            piece@ == part.subrange(since, i - begin),
            forall|j: int| since <= j < i - begin ==> part[j] != COMMA,
        decreases cut - i,
    {
        let c: u8 = line[i];
        let ghost at = (i - begin) as int;
        assert(part[at] == c);
        if c == COMMA {
            proof {
                lemma_find_skips(part, COMMA, since, at);
                lemma_kept_push(done, piece@);
                assert((done.push(piece@)) + split_from(part, COMMA, at + 1) =~= done + split_from(
                    part,
                    COMMA,
                    since,
                ));
                done = done.push(piece@);
                since = at + 1;
            }
            if piece.len() > 0 {
                let ghost before = items@;
                items.push(piece);
                assert(texts(items@) =~= texts(before).push(piece@));
            }
            piece = Vec::new();
            assert(piece@ =~= part.subrange(since, at + 1));
        } else {
            piece.push(c);
            assert(piece@ =~= part.subrange(since, at + 1));
        }
        i += 1;
    }
    proof {
        lemma_find_skips(part, COMMA, since, stop);
        lemma_kept_push(done, piece@);
        assert(done.push(piece@) =~= split_from(part, COMMA, 0));
    }
    if piece.len() > 0 {
        let ghost before = items@;
        items.push(piece);
        assert(texts(items@) =~= texts(before).push(piece@));
    }
    // the answers follow the mark
    let ghost tail = if stop < body.len() {
        body.skip(stop + 1)
    } else {
        Seq::<u8>::empty()
    };
    let mut k: usize = if cut < line.len() {
        cut + 1
    } else {
        cut
    };
    let ghost first = k;
    assert(tail =~= line@.skip(first as int));
    while k < line.len()
        invariant
            first <= k <= line.len(),
            tail == line@.skip(first as int),
            answers@ == spec_decode_answers(tail.take(k - first)),
        decreases line.len() - k,
    {
        assert(tail.take(k + 1 - first).drop_last() =~= tail.take(k - first));
        let c: u8 = line[k];
        if c == YES {
            answers.push(true);
        } else if c == NO {
            answers.push(false);
        }
        k += 1;
    }
    assert(tail.take(line.len() - first) =~= tail);
    (items, answers)
}

/// Writes the line for the items and the answers: the items with commas
/// between them, and, if there is an answer, an exclamation mark and the
/// answers as letters.
pub fn build_hash(items: &[Vec<u8>], answers: &[bool]) -> (line: Vec<u8>)
    ensures
        line@ == spec_build_hash(texts(items@), answers@),
{
    let mut line: Vec<u8> = Vec::new();
    let ghost all = texts(items@);
    let mut i: usize = 0;
    assert(all.take(0) =~= Seq::<Seq<u8>>::empty());
    while i < items.len()
        invariant
            i <= items.len(),
            all == texts(items@),
            line@ == joined(all.take(i as int), COMMA),
        decreases items.len() - i,
    {
        assert(all.take(i + 1).drop_last() =~= all.take(i as int));
        if i > 0 {
            line.push(COMMA);
        }
        let item: &Vec<u8> = &items[i];
        let ghost before = line@;
        let mut j: usize = 0;
        while j < item.len()
            invariant
                j <= item.len(),
                line@ == before + item@.take(j as int),
            decreases item.len() - j,
        {
            line.push(item[j]);
            j += 1;
            assert(line@ =~= before + item@.take(j as int));
        }
        assert(item@.take(item.len() as int) =~= item@);
        assert(all[i as int] == item@);
        i += 1;
    }
    assert(all.take(items.len() as int) =~= all);
    if answers.len() == 0 {
        return line;
    }
    line.push(MARK);
    let ghost before = line@;
    let mut k: usize = 0;
    while k < answers.len()
        invariant
            k <= answers.len(),
            line@ == before + spec_encode_answers(answers@.take(k as int)),
        decreases answers.len() - k,
    {
        line.push(if answers[k] {
            YES
        } else {
            NO
        });
        k += 1;
        assert(line@ =~= before + spec_encode_answers(answers@.take(k as int)));
    }
    assert(answers@.take(answers.len() as int) =~= answers@);
    line
}

} // verus!
