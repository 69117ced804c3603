//! The list of store paths, as it is written on one line.

use vstd::prelude::*;
use vstd::string::StrSliceExecFns;

verus! {

/// The pieces of a text between its commas, in sequence. A text without a
/// comma is one piece; nothing is trimmed and nothing is left out, so two
/// commas in a row, or a comma at either end, give an empty piece.
pub open spec fn comma_split(text: Seq<char>) -> Seq<Seq<char>>
    decreases text.len(),
{
    if text.len() == 0 {
        seq![Seq::empty()]
    } else {
        let front = comma_split(text.drop_last());
        if text.last() == ',' {
            front.push(Seq::empty())
        } else {
            front.drop_last().push(front.last().push(text.last()))
        }
    }
}

/// The pieces written on one line, with a comma between each two.
pub open spec fn comma_joined(pieces: Seq<Seq<char>>) -> Seq<char>
    decreases pieces.len(),
{
    if pieces.len() == 0 {
        Seq::empty()
    } else if pieces.len() == 1 {
        pieces[0]
    } else {
        comma_joined(pieces.drop_last()) + seq![','] + pieces.last()
    }
}

/// Whether there is at least one piece and none of them holds a comma.
pub open spec fn are_pieces(pieces: Seq<Seq<char>>) -> bool {
    &&& pieces.len() >= 1
    &&& forall|i: int| 0 <= i < pieces.len() ==> !(#[trigger] pieces[i]).contains(',')
}

/// Splitting loses nothing: the pieces of a text hold no comma, and joined
/// by commas they are the text again.
pub proof fn lemma_split_then_join(text: Seq<char>)
    ensures
        are_pieces(comma_split(text)),
        comma_joined(comma_split(text)) == text,
    decreases text.len(),
{
    let pieces = comma_split(text);
    if text.len() == 0 {
        assert(comma_joined(pieces) =~= text);
        assert forall|i: int| 0 <= i < pieces.len() implies !(#[trigger] pieces[i]).contains(
            ',',
        ) by {
            assert(pieces[i] =~= Seq::empty());
        }
    } else {
        let front = comma_split(text.drop_last());
        lemma_split_then_join(text.drop_last());
        let c = text.last();
        assert(text =~= text.drop_last().push(c));
        if c == ',' {
            assert(pieces.drop_last() =~= front);
            assert(comma_joined(pieces) =~= text);
            assert forall|i: int| 0 <= i < pieces.len() implies !(#[trigger] pieces[i]).contains(
                ',',
            ) by {
                if i < front.len() {
                    assert(pieces[i] == front[i]);
                }
            }
        } else {
            let grown = front.last().push(c);
            assert(pieces.last() == grown);
            assert(pieces.drop_last() =~= front.drop_last());
            if front.len() == 1 {
                assert(comma_joined(pieces) =~= text);
            } else {
                assert(comma_joined(pieces) =~= (comma_joined(front.drop_last()) + seq![',']
                    + front.last()).push(c));
            }
            assert forall|i: int| 0 <= i < pieces.len() implies !(#[trigger] pieces[i]).contains(
                ',',
            ) by {
                if i < front.len() - 1 {
                    assert(pieces[i] == front[i]);
                } else {
                    if grown.contains(',') {
                        let k = choose|k: int| 0 <= k < grown.len() && grown[k] == ',';
                        assert(k < front.last().len());
                        assert(front.last()[k] == ',');
                        assert(front.last().contains(','));
                        assert(front[front.len() - 1].contains(','));
                    }
                }
            }
        }
    }
}

/// Splitting finds what was joined: pieces without commas, joined by commas
/// and split again, are the same pieces. With [`lemma_split_then_join`] this
/// fixes what [`comma_split`] is.
pub proof fn lemma_join_then_split(pieces: Seq<Seq<char>>)
    requires
        are_pieces(pieces),
    ensures
        comma_split(comma_joined(pieces)) == pieces,
    decreases comma_joined(pieces).len(), pieces.len(),
{
    let text = comma_joined(pieces);
    let tail = pieces.last();
    if tail.len() == 0 {
        assert(tail =~= Seq::<char>::empty());
        if pieces.len() == 1 {
            assert(pieces =~= seq![Seq::<char>::empty()]);
        } else {
            let front = pieces.drop_last();
            assert forall|i: int| 0 <= i < front.len() implies !(#[trigger] front[i]).contains(
                ',',
            ) by {
                assert(front[i] == pieces[i]);
            }
            assert(text =~= comma_joined(front).push(','));
            assert(text.drop_last() =~= comma_joined(front));
            lemma_join_then_split(front);
            assert(text.last() == ',');
            assert(pieces =~= front.push(tail));
            assert(comma_split(text) =~= pieces);
        }
    } else {
        let c = tail.last();
        assert(tail.contains(c));
        assert(pieces[pieces.len() - 1].contains(c));
        let shorter = pieces.update(pieces.len() - 1, tail.drop_last());
        assert(shorter.drop_last() =~= pieces.drop_last());
        assert forall|i: int| 0 <= i < shorter.len() implies !(#[trigger] shorter[i]).contains(
            ',',
        ) by {
            if i < pieces.len() - 1 {
                assert(shorter[i] == pieces[i]);
            } else if shorter[i].contains(',') {
                let k = choose|k: int| 0 <= k < shorter[i].len() && shorter[i][k] == ',';
                assert(tail[k] == ',');
                assert(pieces[i].contains(','));
            }
        }
        assert(tail =~= tail.drop_last().push(c));
        if pieces.len() == 1 {
            assert(text.drop_last() =~= comma_joined(shorter));
        } else {
            assert(text =~= (comma_joined(pieces.drop_last()) + seq![','] + tail.drop_last()).push(
                c,
            ));
            assert(text.drop_last() =~= comma_joined(shorter));
        }
        assert(text.last() == c);
        lemma_join_then_split(shorter);
        assert(comma_split(text) =~= pieces);
    }
}

/// Splits a comma-separated line into the paths it lists.
pub fn split_paths(input: &str) -> (paths: Vec<String>)
    ensures
        paths.deep_view() == comma_split(input@),
{
    let mut paths: Vec<String> = Vec::new();
    let total = input.unicode_len();
    let mut start: usize = 0;
    let mut i: usize = 0;
    assert(input@.take(0) =~= Seq::empty());
    assert(paths.deep_view().push(input@.subrange(0, 0)) =~= seq![Seq::empty()]);
    for c in it: input.chars()
        invariant
            total == input@.len(),
            it.seq() == input@,
            i == it.index(),
            start <= i <= total,
            comma_split(input@.take(i as int)) == paths.deep_view().push(
                input@.subrange(start as int, i as int),
            ),
    {
        let ghost before = paths.deep_view();
        let ghost piece = input@.subrange(start as int, i as int);
        assert(input@.take(i + 1).drop_last() =~= input@.take(i as int));
        assert(input@.take(i + 1).last() == c);
        assert(before.push(piece).drop_last() =~= before);
        if c == ',' {
            paths.push(input.substring_char(start, i).to_owned());
            start = i + 1;
            assert(paths.deep_view() =~= before.push(piece));
            assert(input@.subrange(start as int, i + 1) =~= Seq::empty());
        } else {
            assert(input@.subrange(start as int, i + 1) =~= piece.push(c));
        }
        i += 1;
    }
    let ghost before = paths.deep_view();
    assert(input@.take(i as int) =~= input@);
    paths.push(input.substring_char(start, i).to_owned());
    assert(paths.deep_view() =~= before.push(input@.subrange(start as int, i as int)));
    paths
}

} // verus!
