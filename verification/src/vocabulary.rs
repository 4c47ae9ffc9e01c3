//! The pieces that text is cut into.

use crate::float::number::Binary32;
use crate::text::range_equals;
use std::collections::HashMap;
use vstd::prelude::*;

verus! {

broadcast use vstd::std_specs::hash::group_hash_axioms;

/// What a piece is for.
#[derive(Clone, Copy, Debug, PartialEq, Eq, Structural)]
pub enum PieceType {
    Normal,
    Unknown,
    Control,
    UserDefined,
    Unused,
    Byte,
}

/// The piece type with a number; a number that stands for none is a normal piece.
pub open spec fn piece_type_of(v: i32) -> PieceType {
    if v == 2 {
        PieceType::Unknown
    } else if v == 3 {
        PieceType::Control
    } else if v == 4 {
        PieceType::UserDefined
    } else if v == 5 {
        PieceType::Unused
    } else if v == 6 {
        PieceType::Byte
    } else {
        PieceType::Normal
    }
}

impl PieceType {
    pub fn from_i32(v: i32) -> (r: Self)
        ensures
            r == piece_type_of(v),
    {
        match v {
            1 => PieceType::Normal,
            2 => PieceType::Unknown,
            3 => PieceType::Control,
            4 => PieceType::UserDefined,
            5 => PieceType::Unused,
            6 => PieceType::Byte,
            _ => PieceType::Normal,
        }
    }
}

/// A piece of the vocabulary.
#[derive(Debug, Clone)]
pub struct Piece {
    pub text: Vec<char>,
    pub score: Binary32,
    pub piece_type: PieceType,
}

/// What a piece says.
pub struct PieceView {
    pub text: Seq<char>,
    pub score: Binary32,
    pub piece_type: PieceType,
}

impl View for Piece {
    type V = PieceView;

    open spec fn view(&self) -> PieceView {
        PieceView { text: self.text@, score: self.score, piece_type: self.piece_type }
    }
}

/// Where a text stands among pieces: the last place, if it stands at several.
pub open spec fn place_of(pieces: Seq<PieceView>, text: Seq<char>) -> Option<nat>
    decreases pieces.len(),
{
    if pieces.len() == 0 {
        None
    } else if pieces.last().text == text {
        Some((pieces.len() - 1) as nat)
    } else {
        place_of(pieces.drop_last(), text)
    }
}

/// A place is the last one with the text, and no place means that there is none.
pub proof fn lemma_place_of(pieces: Seq<PieceView>, text: Seq<char>)
    ensures
        match place_of(pieces, text) {
            Some(i) => i < pieces.len() && pieces[i as int].text == text && forall|j: int|
                i < j < pieces.len() ==> (#[trigger] pieces[j]).text != text,
            None => forall|j: int| 0 <= j < pieces.len() ==> (#[trigger] pieces[j]).text != text,
        },
    decreases pieces.len(),
{
    if pieces.len() > 0 && pieces.last().text != text {
        lemma_place_of(pieces.drop_last(), text);
        assert forall|j: int| 0 <= j < pieces.len() - 1 implies #[trigger] pieces[j]
            == pieces.drop_last()[j] by {}
    }
}

/// The number that a text is filed under, with one more character.
pub open spec fn mixed(h: u64, c: char) -> u64 {
    ((h * 0x100_0000_01b3 + c as int) % 0x1_0000_0000_0000_0000) as u64
}

/// The number that a text is filed under.
pub open spec fn fingerprint(text: Seq<char>) -> u64
    decreases text.len(),
{
    if text.len() == 0 {
        0
    } else {
        mixed(fingerprint(text.drop_last()), text.last())
    }
}

pub(crate) fn mix(h: u64, c: char) -> (r: u64)
    ensures
        r == mixed(h, c),
{
    let x: u128 = (h as u128) * 0x100_0000_01b3 + (c as u32) as u128;
    (x % 0x1_0000_0000_0000_0000) as u64
}

pub(crate) fn fingerprint_of(v: &Vec<char>, start: usize, end: usize) -> (h: u64)
    requires
        start <= end <= v@.len(),
    ensures
        h == fingerprint(v@.subrange(start as int, end as int)),
{
    let mut h: u64 = 0;
    let mut i: usize = start;
    while i < end
        invariant
            start <= i <= end <= v@.len(),
            h == fingerprint(v@.subrange(start as int, i as int)),
        decreases end - i,
    {
        proof {
            lemma_fingerprint_extends(v@, start as int, i as int);
        }
        h = mix(h, v[i]);
        i = i + 1;
    }
    h
}

pub(crate) proof fn lemma_fingerprint_extends(v: Seq<char>, start: int, end: int)
    requires
        0 <= start <= end < v.len(),
    ensures
        fingerprint(v.subrange(start, end + 1)) == mixed(
            fingerprint(v.subrange(start, end)),
            v[end],
        ),
{
    assert(v.subrange(start, end + 1).drop_last() == v.subrange(start, end));
}

/// The pieces in order, filed by fingerprint.
pub struct Vocabulary {
    pieces: Vec<Piece>,
    buckets: HashMap<u64, Vec<usize>>,
}

impl View for Vocabulary {
    type V = Seq<PieceView>;

    closed spec fn view(&self) -> Seq<PieceView> {
        self.pieces@.map_values(|p: Piece| p@)
    }
}

impl Vocabulary {
    /// Every place is filed under its text's fingerprint, in order.
    pub closed spec fn wf(self) -> bool {
        filed(self@, self.buckets@)
    }

    /// Files pieces. Of several with one text the last one counts.
    pub fn new(pieces: Vec<Piece>) -> (r: Vocabulary)
        ensures
            r.wf(),
            r@ == pieces@.map_values(|p: Piece| p@),
    {
        let mut buckets: HashMap<u64, Vec<usize>> = HashMap::new();
        let mut i: usize = 0;
        let ghost all = pieces@.map_values(|p: Piece| p@);
        while i < pieces.len()
            invariant
                i <= pieces@.len(),
                all == pieces@.map_values(|p: Piece| p@),
                filed(all.take(i as int), buckets@),
            decreases pieces.len() - i,
        {
            let h = fingerprint_of(&pieces[i].text, 0, pieces[i].text.len());
            proof {
                let t = pieces@[i as int].text@;
                assert(t.subrange(0, t.len() as int) == t);
                assert(all[i as int].text == t);
            }
            let ghost before = buckets@;
            let mut bucket: Vec<usize> = match buckets.remove(&h) {
                Some(b) => b,
                None => Vec::new(),
            };
            let ghost old_bucket = bucket@;
            bucket.push(i);
            buckets.insert(h, bucket);
            proof {
                let done = all.take(i as int);
                let next = all.take(i + 1);
                assert forall|k: u64| #[trigger] buckets@.contains_key(k) implies in_order(
                    next,
                    buckets@[k]@,
                ) by {
                    if k != h {
                        assert(before.contains_key(k));
                        assert(in_order(done, before[k]@));
                    } else if before.contains_key(h) {
                        assert(in_order(done, before[h]@));
                    }
                }
                assert forall|j: int| 0 <= j < next.len() implies listed(next, buckets@, j) by {
                    if j < i {
                        assert(listed(done, before, j));
                        assert(next[j] == done[j]);
                        let k = fingerprint(done[j].text);
                        let m = choose|m: int|
                            0 <= m < before[k]@.len() && #[trigger] before[k]@[m] == j;
                        if k == h {
                            assert(buckets@[h]@[m] == j);
                        } else {
                            assert(buckets@[k]@[m] == j);
                        }
                    } else {
                        assert(buckets@[h]@[old_bucket.len() as int] == j);
                    }
                }
            }
            i = i + 1;
        }
        proof {
            assert(all.take(i as int) == all);
        }
        Vocabulary { pieces, buckets }
    }

    pub fn len(&self) -> (n: usize)
        ensures
            n == self@.len(),
    {
        self.pieces.len()
    }

    /// The piece at a place.
    pub fn piece(&self, i: usize) -> (p: &Piece)
        requires
            i < self@.len(),
        ensures
            p@ == self@[i as int],
    {
        &self.pieces[i]
    }

    /// The place of the text that stands in `v` from `start` to `end`.
    pub fn find(&self, v: &Vec<char>, start: usize, end: usize) -> (r: Option<usize>)
        requires
            self.wf(),
            start <= end <= v@.len(),
        ensures
            match place_of(self@, v@.subrange(start as int, end as int)) {
                Some(i) => r == Some(i as usize) && i < self@.len() && i <= usize::MAX,
                None => r is None,
            },
    {
        let h = fingerprint_of(v, start, end);
        self.find_filed(h, v, start, end)
    }

    /// As `find`, given the text's fingerprint.
    pub(crate) fn find_filed(&self, h: u64, v: &Vec<char>, start: usize, end: usize) -> (r: Option<
        usize,
    >)
        requires
            self.wf(),
            start <= end <= v@.len(),
            h == fingerprint(v@.subrange(start as int, end as int)),
        ensures
            match place_of(self@, v@.subrange(start as int, end as int)) {
                Some(i) => r == Some(i as usize) && i < self@.len() && i <= usize::MAX,
                None => r is None,
            },
    {
        let ghost text = v@.subrange(start as int, end as int);
        proof {
            lemma_place_of(self@, text);
            assert(self@.len() == self.pieces@.len());
        }
        let bucket: &Vec<usize> = match self.buckets.get(&h) {
            Some(b) => b,
            None => {
                proof {
                    if let Some(i) = place_of(self@, text) {
                        assert(listed(self@, self.buckets@, i as int));
                    }
                }
                return None;
            },
        };
        let mut k: usize = bucket.len();
        proof {
            assert(in_order(self@, bucket@));
        }
        while k > 0
            invariant
                k <= bucket@.len(),
                self.wf(),
                self.buckets@.contains_key(h),
                *bucket == self.buckets@[h],
                self@.len() == self.pieces@.len(),
                in_order(self@, bucket@),
                start <= end <= v@.len(),
                text == v@.subrange(start as int, end as int),
                h == fingerprint(text),
                forall|m: int| k <= m < bucket@.len() ==> self@[#[trigger] bucket@[m] as int].text
                    != text,
            decreases k,
        {
            let i = bucket[k - 1];
            if range_equals(v, start, end, &self.pieces[i].text) {
                proof {
                    lemma_place_of(self@, text);
                    assert(self@[i as int].text == text);
                    let p = place_of(self@, text).unwrap() as int;
                    assert(listed(self@, self.buckets@, p));
                    let m = choose|m: int|
                        0 <= m < self.buckets@[h]@.len() && #[trigger] self.buckets@[h]@[m] == p;
                    assert(bucket@[m] == p);
                }
                return Some(i);
            }
            proof {
                assert(self@[i as int].text == self.pieces@[i as int].text@);
            }
            k = k - 1;
        }
        proof {
            lemma_place_of(self@, text);
            if let Some(p) = place_of(self@, text) {
                assert(listed(self@, self.buckets@, p as int));
                let m = choose|m: int|
                    0 <= m < self.buckets@[h]@.len() && #[trigger] self.buckets@[h]@[m] == p;
                assert(self@[bucket@[m] as int].text != text);
            }
        }
        None
    }
}

/// The places in a bucket are places, in order.
spec fn in_order(pieces: Seq<PieceView>, bucket: Seq<usize>) -> bool {
    &&& forall|j: int| 0 <= j < bucket.len() ==> #[trigger] bucket[j] < pieces.len()
    &&& forall|j: int, k: int|
        0 <= j < k < bucket.len() ==> #[trigger] bucket[j] < #[trigger] bucket[k]
}

/// The place `i` is in the bucket that it belongs in.
spec fn listed(pieces: Seq<PieceView>, buckets: Map<u64, Vec<usize>>, i: int) -> bool {
    let h = fingerprint(pieces[i].text);
    buckets.contains_key(h) && exists|m: int|
        0 <= m < buckets[h]@.len() && #[trigger] buckets[h]@[m] == i
}

spec fn filed(pieces: Seq<PieceView>, buckets: Map<u64, Vec<usize>>) -> bool {
    &&& forall|h: u64| #[trigger] buckets.contains_key(h) ==> in_order(pieces, buckets[h]@)
    &&& forall|i: int| 0 <= i < pieces.len() ==> #[trigger] listed(pieces, buckets, i)
}

} // verus!
