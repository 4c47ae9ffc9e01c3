//! Whitespace in texts.

use crate::text::copy_range;
use vstd::prelude::*;

verus! {

/// The characters with the property White_Space.
pub open spec fn is_white(c: char) -> bool {
    ||| '\u{9}' <= c <= '\u{D}'
    ||| c == ' '
    ||| c == '\u{85}'
    ||| c == '\u{A0}'
    ||| c == '\u{1680}'
    ||| '\u{2000}' <= c <= '\u{200A}'
    ||| c == '\u{2028}'
    ||| c == '\u{2029}'
    ||| c == '\u{202F}'
    ||| c == '\u{205F}'
    ||| c == '\u{3000}'
}

pub fn white(c: char) -> (r: bool)
    ensures
        r == is_white(c),
{
    ('\u{9}' <= c && c <= '\u{D}') || c == ' ' || c == '\u{85}' || c == '\u{A0}' || c == '\u{1680}'
        || ('\u{2000}' <= c && c <= '\u{200A}') || c == '\u{2028}' || c == '\u{2029}' || c
        == '\u{202F}' || c == '\u{205F}' || c == '\u{3000}'
}

/// A text without the whitespace that it begins with.
pub open spec fn trimmed_front(s: Seq<char>) -> Seq<char>
    decreases s.len(),
{
    if s.len() > 0 && is_white(s[0]) {
        trimmed_front(s.drop_first())
    } else {
        s
    }
}

/// A text without the whitespace that it ends with.
pub open spec fn trimmed_back(s: Seq<char>) -> Seq<char>
    decreases s.len(),
{
    if s.len() > 0 && is_white(s.last()) {
        trimmed_back(s.drop_last())
    } else {
        s
    }
}

/// A text without the whitespace around it.
pub open spec fn trimmed(s: Seq<char>) -> Seq<char> {
    trimmed_back(trimmed_front(s))
}

/// The characters of a text that are not whitespace.
pub open spec fn solid(s: Seq<char>) -> Seq<char>
    decreases s.len(),
{
    if s.len() == 0 {
        Seq::empty()
    } else if is_white(s.last()) {
        solid(s.drop_last())
    } else {
        solid(s.drop_last()).push(s.last())
    }
}

pub proof fn lemma_solid_concat(a: Seq<char>, b: Seq<char>)
    ensures
        solid(a + b) == solid(a) + solid(b),
    decreases b.len(),
{
    if b.len() == 0 {
        assert(a + b == a);
        assert(solid(a) + solid(b) == solid(a));
    } else {
        lemma_solid_concat(a, b.drop_last());
        assert((a + b).drop_last() == a + b.drop_last());
        assert((solid(a) + solid(b.drop_last())).push(b.last()) == solid(a) + solid(
            b.drop_last(),
        ).push(b.last()));
    }
}

pub proof fn lemma_trimmed_front(s: Seq<char>)
    ensures
        trimmed_front(s).len() <= s.len(),
        trimmed_front(s) == s.skip(s.len() - trimmed_front(s).len()),
        trimmed_front(s).len() > 0 ==> !is_white(trimmed_front(s)[0]),
        solid(trimmed_front(s)) == solid(s),
    decreases s.len(),
{
    if s.len() > 0 && is_white(s[0]) {
        let t = s.drop_first();
        lemma_trimmed_front(t);
        assert(s == seq![s[0]] + t);
        lemma_solid_concat(seq![s[0]], t);
        assert(seq![s[0]].last() == s[0]);
        assert(seq![s[0]].drop_last() == Seq::<char>::empty());
        assert(solid(seq![s[0]].drop_last()) == Seq::<char>::empty());
        assert(solid(seq![s[0]]) == Seq::<char>::empty());
        assert(solid(s) == solid(t));
        assert(t.skip(t.len() - trimmed_front(t).len()) == s.skip(
            s.len() - trimmed_front(s).len(),
        ));
    } else {
        assert(s.skip(0) == s);
    }
}

pub proof fn lemma_trimmed_back(s: Seq<char>)
    ensures
        trimmed_back(s).len() <= s.len(),
        trimmed_back(s) == s.take(trimmed_back(s).len() as int),
        trimmed_back(s).len() > 0 ==> !is_white(trimmed_back(s).last()),
        solid(trimmed_back(s)) == solid(s),
        s.len() > 0 && !is_white(s[0]) ==> trimmed_back(s).len() > 0,
    decreases s.len(),
{
    if s.len() > 0 && is_white(s.last()) {
        let t = s.drop_last();
        lemma_trimmed_back(t);
        assert(t.take(trimmed_back(t).len() as int) == s.take(trimmed_back(s).len() as int));
    } else {
        assert(s.take(s.len() as int) == s);
    }
}

/// A trimmed text neither begins nor ends with whitespace; only whitespace is
/// lost; and trimming it again changes nothing.
pub proof fn trimming(s: Seq<char>)
    ensures
        trimmed(s).len() > 0 ==> !is_white(trimmed(s)[0]) && !is_white(trimmed(s).last()),
        solid(trimmed(s)) == solid(s),
        trimmed(trimmed(s)) == trimmed(s),
        trimmed(s).len() <= s.len(),
{
    lemma_trimmed_front(s);
    lemma_trimmed_back(trimmed_front(s));
}

/// A copy of the characters from `start` to `end` without the whitespace
/// around them.
pub fn trim_range(v: &Vec<char>, start: usize, end: usize) -> (r: Vec<char>)
    requires
        start <= end <= v@.len(),
    ensures
        r@ == trimmed(v@.subrange(start as int, end as int)),
{
    let ghost s = v@.subrange(start as int, end as int);
    let mut a: usize = start;
    let mut going = true;
    proof {
        assert(v@.subrange(a as int, end as int) == s);
    }
    while going
        invariant
            start <= a <= end <= v@.len(),
            trimmed_front(v@.subrange(a as int, end as int)) == trimmed_front(s),
            !going ==> trimmed_front(s) == v@.subrange(a as int, end as int),
        decreases end - a + if going { 1int } else { 0int },
    {
        if a < end && white(v[a]) {
            proof {
                assert(v@.subrange(a as int, end as int).drop_first() == v@.subrange(
                    a + 1,
                    end as int,
                ));
            }
            a = a + 1;
        } else {
            going = false;
        }
    }
    let mut b: usize = end;
    let ghost t = v@.subrange(a as int, end as int);
    going = true;
    while going
        invariant
            a <= b <= end <= v@.len(),
            trimmed_back(v@.subrange(a as int, b as int)) == trimmed_back(t),
            !going ==> trimmed_back(t) == v@.subrange(a as int, b as int),
        decreases b - a + if going { 1int } else { 0int },
    {
        if a < b && white(v[b - 1]) {
            proof {
                assert(v@.subrange(a as int, b as int).drop_last() == v@.subrange(a as int, b - 1));
            }
            b = b - 1;
        } else {
            going = false;
        }
    }
    copy_range(v, a, b)
}

/// A copy without the whitespace around it.
pub fn trim(v: &Vec<char>) -> (r: Vec<char>)
    ensures
        r@ == trimmed(v@),
{
    proof {
        assert(v@.subrange(0, v@.len() as int) == v@);
    }
    trim_range(v, 0, v.len())
}

/// The number of words: stretches of characters that are not whitespace.
pub open spec fn words(s: Seq<char>) -> nat
    decreases s.len(),
{
    if s.len() == 0 {
        0
    } else if !is_white(s.last()) && (s.len() == 1 || is_white(s[s.len() - 2])) {
        words(s.drop_last()) + 1
    } else {
        words(s.drop_last())
    }
}

pub fn count_words(v: &Vec<char>) -> (r: usize)
    ensures
        r == words(v@),
{
    let mut n: usize = 0;
    let mut i: usize = 0;
    let mut after_white = true;
    while i < v.len()
        invariant
            n <= i <= v@.len(),
            n == words(v@.take(i as int)),
            after_white == (i == 0 || is_white(v@[i - 1])),
        decreases v.len() - i,
    {
        let w = white(v[i]);
        proof {
            let s = v@.take(i + 1);
            assert(s.drop_last() == v@.take(i as int));
        }
        if !w && after_white {
            n = n + 1;
        }
        after_white = w;
        i = i + 1;
    }
    proof {
        assert(v@.take(i as int) == v@);
    }
    n
}

/// A text with each character of `blanks` made a space, and each run of spaces
/// made one.
pub open spec fn flattened(s: Seq<char>, blanks: Seq<char>) -> Seq<char>
    decreases s.len(),
{
    if s.len() == 0 {
        Seq::empty()
    } else {
        let front = flattened(s.drop_last(), blanks);
        let c = if blanks.contains(s.last()) {
            ' '
        } else {
            s.last()
        };
        if c == ' ' && front.len() > 0 && front.last() == ' ' {
            front
        } else {
            front.push(c)
        }
    }
}

/// A flattened text has no two spaces in a row, and none of the characters
/// that were to go.
pub proof fn flattening(s: Seq<char>, blanks: Seq<char>)
    ensures
        forall|i: int|
            0 <= i < flattened(s, blanks).len() - 1 ==> !(#[trigger] flattened(s, blanks)[i] == ' '
                && flattened(s, blanks)[i + 1] == ' '),
        forall|i: int|
            0 <= i < flattened(s, blanks).len() ==> #[trigger] flattened(s, blanks)[i] == ' '
                || !blanks.contains(flattened(s, blanks)[i]),
    decreases s.len(),
{
    if s.len() > 0 {
        flattening(s.drop_last(), blanks);
        let front = flattened(s.drop_last(), blanks);
        let whole = flattened(s, blanks);
        assert forall|i: int| 0 <= i < whole.len() - 1 implies !(#[trigger] whole[i] == ' '
            && whole[i + 1] == ' ') by {
            assert(whole[i] == front[i]);
            if i + 1 < front.len() {
                assert(whole[i + 1] == front[i + 1]);
            }
        }
        assert forall|i: int| 0 <= i < whole.len() implies #[trigger] whole[i] == ' '
            || !blanks.contains(whole[i]) by {
            if i < front.len() {
                assert(whole[i] == front[i]);
            }
        }
    }
}

/// Whether `list` holds `c`.
pub fn holds(list: &[char], c: char) -> (r: bool)
    ensures
        r == list@.contains(c),
{
    let mut i: usize = 0;
    while i < list.len()
        invariant
            i <= list@.len(),
            forall|j: int| 0 <= j < i ==> list@[j] != c,
        decreases list.len() - i,
    {
        if list[i] == c {
            return true;
        }
        i = i + 1;
    }
    false
}

pub fn flatten(v: &Vec<char>, blanks: &[char]) -> (r: Vec<char>)
    ensures
        r@ == flattened(v@, blanks@),
{
    let mut r: Vec<char> = Vec::new();
    let mut i: usize = 0;
    while i < v.len()
        invariant
            i <= v@.len(),
            r@ == flattened(v@.take(i as int), blanks@),
        decreases v.len() - i,
    {
        let c = if holds(blanks, v[i]) {
            ' '
        } else {
            v[i]
        };
        proof {
            let s = v@.take(i + 1);
            assert(s.drop_last() == v@.take(i as int));
        }
        if !(c == ' ' && r.len() > 0 && r[r.len() - 1] == ' ') {
            r.push(c);
        }
        i = i + 1;
    }
    proof {
        assert(v@.take(i as int) == v@);
    }
    r
}

} // verus!
