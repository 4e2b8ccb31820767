//! Words in a line of text.

use vstd::prelude::*;
use crate::utils::chance::random_below;

verus! {

/// The words of `s`, after the word `word` that was begun before it: a word
/// ends at a blank or at the end of the text, and there is no empty word.
pub open spec fn words_after(s: Seq<char>, word: Seq<char>) -> Seq<Seq<char>>
    decreases s.len(),
{
    let done: Seq<Seq<char>> = if word.len() > 0 {
        seq![word]
    } else {
        Seq::empty()
    };
    if s.len() == 0 {
        done
    } else if s[0] == ' ' {
        done + words_after(s.drop_first(), Seq::empty())
    } else {
        words_after(s.drop_first(), word.push(s[0]))
    }
}

/// The words of `s`: what stands between its blanks.
pub open spec fn words(s: Seq<char>) -> Seq<Seq<char>> {
    words_after(s, Seq::empty())
}

/// The words of `text`.
pub fn split_words(text: &str) -> (out: Vec<String>)
    ensures
        out.deep_view() == words(text@),
{
    let n = text.unicode_len();
    let mut out: Vec<String> = Vec::new();
    let mut start: usize = 0;
    let mut i: usize = 0;
    proof {
        assert(text@.skip(0) =~= text@);
        assert(text@.subrange(0, 0) =~= Seq::<char>::empty());
        assert(out.deep_view() =~= Seq::<Seq<char>>::empty());
        assert(Seq::<Seq<char>>::empty() + words(text@) =~= words(text@));
    }
    while i < n
        invariant
            n == text@.len(),
            start <= i <= n,
            words(text@) == out.deep_view() + words_after(
                text@.skip(i as int),
                text@.subrange(start as int, i as int),
            ),
        decreases n - i,
    {
        let ghost rest = text@.skip(i as int);
        let ghost word = text@.subrange(start as int, i as int);
        let ghost before = out.deep_view();
        proof {
            assert(rest.drop_first() =~= text@.skip(i + 1));
            assert(rest[0] == text@[i as int]);
        }
        if text.get_char(i) == ' ' {
            if start < i {
                out.push(text.substring_char(start, i).to_owned());
                proof {
                    assert(out.deep_view() =~= before + seq![word]);
                    assert(before + (seq![word] + words_after(rest.drop_first(), Seq::empty()))
                        =~= (before + seq![word]) + words_after(rest.drop_first(), Seq::empty()));
                }
            } else {
                proof {
                    assert(Seq::<Seq<char>>::empty() + words_after(rest.drop_first(), Seq::empty())
                        =~= words_after(rest.drop_first(), Seq::empty()));
                }
            }
            start = i + 1;
            proof {
                assert(text@.subrange(i + 1, i + 1) =~= Seq::<char>::empty());
            }
        } else {
            proof {
                assert(text@.subrange(start as int, i + 1) =~= word.push(text@[i as int]));
            }
        }
        i = i + 1;
    }
    let ghost word = text@.subrange(start as int, i as int);
    let ghost before = out.deep_view();
    proof {
        assert(text@.skip(n as int).len() == 0);
    }
    if start < i {
        out.push(text.substring_char(start, i).to_owned());
        proof {
            assert(out.deep_view() =~= before + seq![word]);
        }
    } else {
        proof {
            assert(before + Seq::<Seq<char>>::empty() =~= before);
        }
    }
    out
}

/// The pieces that `s` falls into at each `sep`, after the piece `piece` that
/// was begun before it. A piece may be empty.
pub open spec fn pieces_after(s: Seq<char>, sep: char, piece: Seq<char>) -> Seq<Seq<char>>
    decreases s.len(),
{
    if s.len() == 0 {
        seq![piece]
    } else if s[0] == sep {
        seq![piece] + pieces_after(s.drop_first(), sep, Seq::empty())
    } else {
        pieces_after(s.drop_first(), sep, piece.push(s[0]))
    }
}

/// The pieces that `s` falls into at each `sep`.
pub open spec fn pieces(s: Seq<char>, sep: char) -> Seq<Seq<char>> {
    pieces_after(s, sep, Seq::empty())
}

/// The pieces that `text` falls into at each `sep`.
pub fn split_pieces(text: &str, sep: char) -> (out: Vec<String>)
    ensures
        out.deep_view() == pieces(text@, sep),
        out.len() > 0,
{
    let n = text.unicode_len();
    let mut out: Vec<String> = Vec::new();
    let mut start: usize = 0;
    let mut i: usize = 0;
    proof {
        assert(text@.skip(0) =~= text@);
        assert(text@.subrange(0, 0) =~= Seq::<char>::empty());
        assert(out.deep_view() =~= Seq::<Seq<char>>::empty());
        assert(Seq::<Seq<char>>::empty() + pieces(text@, sep) =~= pieces(text@, sep));
    }
    while i < n
        invariant
            n == text@.len(),
            start <= i <= n,
            pieces(text@, sep) == out.deep_view() + pieces_after(
                text@.skip(i as int),
                sep,
                text@.subrange(start as int, i as int),
            ),
        decreases n - i,
    {
        let ghost rest = text@.skip(i as int);
        let ghost piece = text@.subrange(start as int, i as int);
        let ghost before = out.deep_view();
        proof {
            assert(rest.drop_first() =~= text@.skip(i + 1));
            assert(rest[0] == text@[i as int]);
        }
        if text.get_char(i) == sep {
            out.push(text.substring_char(start, i).to_owned());
            proof {
                assert(out.deep_view() =~= before + seq![piece]);
                assert(before + (seq![piece] + pieces_after(rest.drop_first(), sep, Seq::empty()))
                    =~= (before + seq![piece]) + pieces_after(rest.drop_first(), sep, Seq::empty()));
                assert(text@.subrange(i + 1, i + 1) =~= Seq::<char>::empty());
            }
            start = i + 1;
        } else {
            proof {
                assert(text@.subrange(start as int, i + 1) =~= piece.push(text@[i as int]));
            }
        }
        i = i + 1;
    }
    let ghost piece = text@.subrange(start as int, i as int);
    let ghost before = out.deep_view();
    proof {
        assert(text@.skip(n as int).len() == 0);
    }
    out.push(text.substring_char(start, i).to_owned());
    proof {
        assert(out.deep_view() =~= before + seq![piece]);
    }
    out
}

/// One of the sentences of `text`, picked by chance: a piece between two
/// full stops, without them.
pub fn pick_sentence(text: &str) -> (s: String)
    ensures
        pieces(text@, '.').contains(s@),
{
    let sentences = split_pieces(text, '.');
    let i = random_below(sentences.len());
    proof {
        assert(sentences.deep_view()[i as int] == sentences[i as int]@);
    }
    sentences[i].clone()
}

} // verus!
