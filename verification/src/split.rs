//! Reading a published text back: the text of a completed run, split at
//! its separators, is the result piece by piece.

use vstd::prelude::*;
use crate::decimal::{dec_text, lemma_dec_digits_shape};
use crate::forms::{cuban, euler_polynomial, mersenne};
use crate::primes::{member_text, pair_text, range_hits, PrimeType};
use crate::stream::{joined, lemma_quiet_run_completes, quiet, run_model, separator, started};

verus! {

/// The text holds a separator at place `i`.
pub open spec fn separator_at(text: Seq<char>, i: int) -> bool {
    0 <= i && i + 2 <= text.len() && text[i] == ',' && text[i + 1] == ' '
}

/// The text holds a separator at place `i`, and none before it.
pub open spec fn first_separator_at(text: Seq<char>, i: int) -> bool {
    separator_at(text, i) && forall|j: int| 0 <= j < i ==> !separator_at(text, j)
}

/// The pieces of a text between its separators, found from the left, as
/// `str::split` finds them. A text without a separator is one piece.
pub open spec fn split(text: Seq<char>) -> Seq<Seq<char>>
    decreases text.len(),
{
    if exists|i: int| first_separator_at(text, i) {
        let i = choose|i: int| first_separator_at(text, i);
        seq![text.subrange(0, i)] + split(text.subrange(i + 2, text.len() as int))
    } else {
        seq![text]
    }
}

/// The piece is not empty and holds no space.
pub open spec fn plain(piece: Seq<char>) -> bool {
    piece.len() > 0 && forall|i: int| 0 <= i < piece.len() ==> piece[i] != ' '
}

/// Every piece is plain.
pub open spec fn all_plain(pieces: Seq<Seq<char>>) -> bool {
    forall|k: int| 0 <= k < pieces.len() ==> plain(#[trigger] pieces[k])
}

/// A single piece, joined, is the piece.
proof fn lemma_joined_single(pieces: Seq<Seq<char>>)
    requires
        pieces.len() == 1,
    ensures
        joined(pieces) == pieces[0],
{
    reveal_with_fuel(joined, 2);
    assert(pieces.drop_last().len() == 0);
}

/// Plain pieces, joined, are not empty.
proof fn lemma_joined_not_empty(pieces: Seq<Seq<char>>)
    requires
        pieces.len() >= 1,
        all_plain(pieces),
    ensures
        joined(pieces).len() > 0,
{
    assert(plain(pieces[pieces.len() - 1]));
}

/// Plain pieces, joined, are the first piece, a separator, and the rest
/// joined.
proof fn lemma_joined_from_the_front(pieces: Seq<Seq<char>>)
    requires
        pieces.len() >= 2,
        all_plain(pieces),
    ensures
        joined(pieces) == pieces[0] + separator() + joined(
            pieces.subrange(1, pieces.len() as int),
        ),
    decreases pieces.len(),
{
    let n = pieces.len() as int;
    let front = pieces.drop_last();
    let rest = pieces.subrange(1, n);
    assert(plain(pieces[0]));
    assert forall|k: int| 0 <= k < front.len() implies plain(#[trigger] front[k]) by {
        assert(front[k] == pieces[k]);
    }
    assert forall|k: int| 0 <= k < rest.len() implies plain(#[trigger] rest[k]) by {
        assert(rest[k] == pieces[k + 1]);
    }
    lemma_joined_not_empty(front);
    if n == 2 {
        lemma_joined_single(front);
        lemma_joined_single(rest);
    } else {
        lemma_joined_from_the_front(front);
        let middle = front.subrange(1, n - 1);
        assert(rest.drop_last() =~= middle);
        assert forall|k: int| 0 <= k < middle.len() implies plain(#[trigger] middle[k]) by {
            assert(middle[k] == pieces[k + 1]);
        }
        lemma_joined_not_empty(middle);
        assert(joined(pieces) =~= pieces[0] + separator() + joined(rest));
    }
}

/// Plain pieces can be read back: joined and split again, they are what
/// they were, in their order. So the joined text has no separator at its
/// start or its end, and no two in a row.
pub proof fn lemma_split_joined(pieces: Seq<Seq<char>>)
    requires
        pieces.len() >= 1,
        all_plain(pieces),
    ensures
        split(joined(pieces)) == pieces,
    decreases pieces.len(),
{
    let n = pieces.len() as int;
    let text = joined(pieces);
    let first = pieces[0];
    assert(plain(first));
    if n == 1 {
        lemma_joined_single(pieces);
        assert forall|i: int| !first_separator_at(text, i) by {
            if separator_at(text, i) {
                assert(text[i + 1] != ' ');
            }
        }
        assert(split(text) =~= pieces);
    } else {
        let rest = pieces.subrange(1, n);
        assert forall|k: int| 0 <= k < rest.len() implies plain(#[trigger] rest[k]) by {
            assert(rest[k] == pieces[k + 1]);
        }
        lemma_joined_from_the_front(pieces);
        lemma_split_joined(rest);
        let at = first.len() as int;
        assert(text =~= first + separator() + joined(rest));
        assert(text[at] == ',' && text[at + 1] == ' ');
        assert forall|j: int| 0 <= j < at implies !separator_at(text, j) by {
            if j + 1 < at {
                assert(text[j + 1] == first[j + 1]);
            } else {
                assert(text[j + 1] == ',');
            }
        }
        assert(first_separator_at(text, at));
        let i = choose|i: int| first_separator_at(text, i);
        assert(i == at) by {
            if i < at {
                assert(!separator_at(text, i));
            } else if i > at {
                assert(!separator_at(text, at));
            }
        }
        assert(text.subrange(0, at) =~= first);
        assert(text.subrange(at + 2, text.len() as int) =~= joined(rest));
        assert(split(text) =~= seq![first] + rest);
        assert(seq![first] + rest =~= pieces);
    }
}

/// The decimal text of a number is plain.
pub proof fn lemma_dec_text_plain(n: nat)
    ensures
        plain(dec_text(n)),
{
    lemma_dec_digits_shape(n);
}

/// The text of every member of every family is plain.
pub proof fn lemma_member_text_plain(kind: PrimeType, p: nat)
    ensures
        plain(member_text(kind, p)),
{
    let text = member_text(kind, p);
    match kind {
        PrimeType::Twin => {
            lemma_pair_text_plain(p, p + 2);
        },
        PrimeType::Sexy => {
            lemma_pair_text_plain(p, p + 6);
        },
        PrimeType::Cousin => {
            lemma_pair_text_plain(p, p + 4);
        },
        PrimeType::Fermat => {
            lemma_dec_text_plain(p);
            let digits = dec_text(p);
            assert forall|i: int| 0 <= i < text.len() implies text[i] != ' ' by {
                if i >= 1 {
                    assert(text[i] == digits[i - 1]);
                }
            }
        },
        PrimeType::Mersenne => {
            lemma_dec_text_plain(mersenne(p) as nat);
        },
        PrimeType::Cuban => {
            lemma_dec_text_plain(cuban(p));
        },
        PrimeType::Ebl => {
            lemma_dec_text_plain(euler_polynomial(p));
        },
        _ => {
            lemma_dec_text_plain(p);
        },
    }
}

/// The text of a pair is plain.
proof fn lemma_pair_text_plain(a: nat, b: nat)
    ensures
        plain(pair_text(a, b)),
{
    lemma_dec_text_plain(a);
    lemma_dec_text_plain(b);
    let left = dec_text(a);
    let right = dec_text(b);
    let text = pair_text(a, b);
    assert forall|i: int| 0 <= i < text.len() implies text[i] != ' ' by {
        if i == 0 {
        } else if i < 1 + left.len() {
            assert(text[i] == left[i - 1]);
        } else if i == 1 + left.len() {
        } else if i < 2 + left.len() + right.len() {
            assert(text[i] == right[i - 2 - left.len()]);
        } else {
        }
    }
}

/// Every hit of a scan is plain.
pub proof fn lemma_range_hits_plain(kind: PrimeType, start: nat, end: nat)
    ensures
        all_plain(range_hits(kind, start, end)),
    decreases end,
{
    if start < end {
        lemma_range_hits_plain(kind, start, (end - 1) as nat);
        lemma_member_text_plain(kind, (end - 1) as nat);
    }
}

/// The text that a run over the hits of a scan has published when it
/// completes without a cancellation can be read back: if the scan found
/// anything, the text split at its separators is the hits in their order,
/// and else the text is empty.
pub proof fn lemma_completed_run_reads_back(kind: PrimeType, start: nat, end: nat)
    requires
        range_hits(kind, start, end).len() <= usize::MAX,
    ensures
        ({
            let hits = range_hits(kind, start, end);
            let text = run_model(started(hits), quiet(hits.len() + 1)).output;
            &&& text == joined(hits)
            &&& hits.len() >= 1 ==> split(text) == hits
            &&& hits.len() == 0 ==> text.len() == 0
        }),
{
    let hits = range_hits(kind, start, end);
    lemma_quiet_run_completes(hits);
    lemma_range_hits_plain(kind, start, end);
    if hits.len() >= 1 {
        lemma_split_joined(hits);
    }
}

} // verus!
