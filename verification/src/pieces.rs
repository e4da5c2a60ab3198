//! Coloured pieces of a border, filled colour by colour.

use crate::border::Edge;
use crate::color::Color;
use smallvec::SmallVec;
use vstd::prelude::*;

verus! {

/// Which part of the thickness of an edge a piece takes.
#[derive(Clone, Copy, Debug, PartialEq, Eq, Structural)]
pub enum Slice {
    /// All of it.
    Whole,
    /// The outer third and the inner third.
    OuterAndInnerThird,
    OuterHalf,
    InnerHalf,
}

/// The region of one edge, or of a slice of it.
#[derive(Clone, Copy, Debug, PartialEq, Eq, Structural)]
pub struct EdgePiece {
    pub edge: Edge,
    pub slice: Slice,
}

/// A piece and its place among the fills.
#[derive(Clone, Copy, Debug, PartialEq, Eq, Structural)]
pub struct PieceFill {
    pub color: Color,
    pub piece: EdgePiece,
    /// Whether the piece is filled in one path with the piece before it.
    pub joined: bool,
}

/// The pieces of a border in the order they were found, eight of them in place.
#[verifier::external_body]
pub struct PieceList {
    items: SmallVec<[(Color, EdgePiece); 8]>,
}

/// What a list of pieces holds, in order.
pub uninterp spec fn listed_pieces(list: PieceList) -> Seq<(Color, EdgePiece)>;

impl PieceList {
    /// `SmallVec::new`: a list that holds nothing.
    #[verifier::external_body]
    pub(crate) fn new() -> (r: PieceList)
        ensures
            listed_pieces(r) == Seq::<(Color, EdgePiece)>::empty(),
    {
        PieceList { items: SmallVec::new() }
    }

    /// `SmallVec::push`: the item goes behind those that are there.
    #[verifier::external_body]
    pub(crate) fn push(&mut self, color: Color, piece: EdgePiece)
        ensures
            listed_pieces(*final(self)) == listed_pieces(*old(self)).push((color, piece)),
    {
        self.items.push((color, piece));
    }

    /// `SmallVec::insert`: the item goes in at the index and what follows moves up. It panics
    /// past the end.
    #[verifier::external_body]
    pub(crate) fn insert(&mut self, index: usize, color: Color, piece: EdgePiece)
        requires
            index <= listed_pieces(*old(self)).len(),
        ensures
            listed_pieces(*final(self)) == listed_pieces(*old(self)).insert(
                index as int,
                (color, piece),
            ),
    {
        self.items.insert(index, (color, piece));
    }

    /// `SmallVec::len`: the number of items.
    #[verifier::external_body]
    pub(crate) fn len(&self) -> (r: usize)
        ensures
            r == listed_pieces(*self).len(),
    {
        self.items.len()
    }

    /// The index operator of `SmallVec`: the item at an index. It panics past the end.
    #[verifier::external_body]
    pub(crate) fn at(&self, index: usize) -> (r: (Color, EdgePiece))
        requires
            index < listed_pieces(*self).len(),
        ensures
            r == listed_pieces(*self)[index as int],
    {
        self.items[index]
    }
}

pub open spec fn spec_precedes(a: Color, b: Color) -> bool {
    ||| a.r.below(b.r)
    ||| a.r.equals(b.r) && {
        ||| a.g.below(b.g)
        ||| a.g.equals(b.g) && {
            ||| a.b.below(b.b)
            ||| a.b.equals(b.b) && a.a.below(b.a)
        }
    }
}

/// The order in which colours are filled: by red, then green, then blue, then alpha.
#[verifier::when_used_as_spec(spec_precedes)]
pub fn precedes(a: Color, b: Color) -> (r: bool)
    ensures
        r == spec_precedes(a, b),
{
    a.r.below(b.r) || (a.r.equals(b.r) && (a.g.below(b.g) || (a.g.equals(b.g) && (a.b.below(b.b)
        || (a.b.equals(b.b) && a.a.below(b.a))))))
}

/// Where a colour goes in an ordered list, behind everything that it does not precede; the
/// search starting at `from`.
pub open spec fn place_from(s: Seq<(Color, EdgePiece)>, color: Color, from: nat) -> nat
    decreases s.len() - from,
{
    if from >= s.len() {
        s.len()
    } else if precedes(color, s[from as int].0) {
        from
    } else {
        place_from(s, color, from + 1)
    }
}

/// The pieces ordered by colour, those of one colour in the order they were found.
pub open spec fn ordered(s: Seq<(Color, EdgePiece)>) -> Seq<(Color, EdgePiece)>
    decreases s.len(),
{
    if s.len() == 0 {
        Seq::empty()
    } else {
        let before = ordered(s.drop_last());
        before.insert(place_from(before, s.last().0, 0) as int, s.last())
    }
}

/// The first piece of the run of one colour that piece `i` belongs to.
pub open spec fn run_start(s: Seq<(Color, EdgePiece)>, i: nat) -> nat
    decreases i,
{
    if i == 0 {
        0
    } else {
        let start = run_start(s, (i - 1) as nat);
        if s[i as int].0.same_as(s[start as int].0) {
            start
        } else {
            i
        }
    }
}

/// The fills of an ordered list: each run of one colour in one path.
pub open spec fn run_fills(s: Seq<(Color, EdgePiece)>) -> Seq<PieceFill> {
    Seq::new(
        s.len(),
        |i: int|
            PieceFill {
                color: s[run_start(s, i as nat) as int].0,
                piece: s[i].1,
                joined: run_start(s, i as nat) < i,
            },
    )
}

proof fn lemma_place_bound(s: Seq<(Color, EdgePiece)>, color: Color, from: nat)
    requires
        from <= s.len(),
    ensures
        place_from(s, color, from) <= s.len(),
    decreases s.len() - from,
{
    if from < s.len() && !precedes(color, s[from as int].0) {
        lemma_place_bound(s, color, from + 1);
    }
}

proof fn lemma_run_start_bound(s: Seq<(Color, EdgePiece)>, i: nat)
    ensures
        run_start(s, i) <= i,
    decreases i,
{
    if i > 0 {
        lemma_run_start_bound(s, (i - 1) as nat);
    }
}

/// The pieces in the order of their colours.
fn order_by_color(pieces: &PieceList) -> (r: PieceList)
    ensures
        listed_pieces(r) == ordered(listed_pieces(*pieces)),
{
    let ghost all = listed_pieces(*pieces);
    let mut r = PieceList::new();
    let len: usize = pieces.len();
    let mut i: usize = 0;
    assert(all.take(0) =~= Seq::empty());
    while i < len
        invariant
            i <= len,
            len == all.len(),
            all == listed_pieces(*pieces),
            listed_pieces(r) == ordered(all.take(i as int)),
        decreases len - i,
    {
        let (color, piece) = pieces.at(i);
        let ghost before = listed_pieces(r);
        let mut place: usize = 0;
        proof {
            lemma_place_bound(before, color, 0);
        }
        while place < r.len() && !precedes(color, r.at(place).0)
            invariant
                before == listed_pieces(r),
                place <= before.len(),
                place_from(before, color, 0) == place_from(before, color, place as nat),
            decreases before.len() - place,
        {
            place = place + 1;
        }
        assert(place == place_from(before, color, 0));
        r.insert(place, color, piece);
        proof {
            let upto = all.take(i + 1);
            assert(upto.drop_last() =~= all.take(i as int));
            assert(upto.last() == (color, piece));
        }
        i = i + 1;
    }
    assert(all.take(len as int) =~= all);
    r
}

/// The fills of a list of pieces, identical colours grouped into a single path so that
/// adjacent regions of one colour are rasterised together and no antialiasing seam appears
/// between them.
pub fn fill_grouped_by_color(pieces: &PieceList) -> (r: Vec<PieceFill>)
    ensures
        r@ == run_fills(ordered(listed_pieces(*pieces))),
{
    let list = order_by_color(pieces);
    let ghost s = listed_pieces(list);
    let mut r: Vec<PieceFill> = Vec::new();
    let len: usize = list.len();
    let mut start: usize = 0;
    while start < len
        invariant
            start <= len,
            len == s.len(),
            s == listed_pieces(list),
            r@ == run_fills(s).take(start as int),
            start < len ==> run_start(s, start as nat) == start,
        decreases len - start,
    {
        let (color, first) = list.at(start);
        r.push(PieceFill { color, piece: first, joined: false });
        let mut next: usize = start + 1;
        assert(r@ =~= run_fills(s).take(next as int));
        while next < len && list.at(next).0.same_as(color)
            invariant
                start < next <= len,
                len == s.len(),
                s == listed_pieces(list),
                color == s[start as int].0,
                run_start(s, (next - 1) as nat) == start,
                r@ == run_fills(s).take(next as int),
            decreases len - next,
        {
            let (_, piece) = list.at(next);
            assert(run_start(s, next as nat) == start);
            r.push(PieceFill { color, piece, joined: true });
            assert(r@ =~= run_fills(s).take(next + 1));
            next = next + 1;
        }
        assert(next < len ==> run_start(s, next as nat) == next);
        start = next;
    }
    assert(run_fills(s).take(len as int) =~= run_fills(s));
    r
}

} // verus!
