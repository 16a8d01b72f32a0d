//! Reading the ASCII text of a map into a grid of elements.

use crate::maps::{MapElement, MapError, WorldMap};
use vstd::prelude::*;
use vstd::string::StringSliceAdditionalSpecFns;

verus! {


/// ASCII white space: space, tab, line feed, vertical tab, form feed and
/// carriage return.
pub open spec fn is_space(b: u8) -> bool {
    b == 32 || (9 <= b && b <= 13)
}

/// `s` without its leading white space.
pub open spec fn trim_front(s: Seq<u8>) -> Seq<u8>
    decreases s.len(),
{
    if s.len() > 0 && is_space(s[0]) {
        trim_front(s.drop_first())
    } else {
        s
    }
}

/// `s` without its trailing white space.
pub open spec fn trim_back(s: Seq<u8>) -> Seq<u8>
    decreases s.len(),
{
    if s.len() > 0 && is_space(s.last()) {
        trim_back(s.drop_last())
    } else {
        s
    }
}

/// `s` without white space at either end.
pub open spec fn trimmed(s: Seq<u8>) -> Seq<u8> {
    trim_back(trim_front(s))
}

/// The pieces of `s` between line feeds; there is always one more piece
/// than there are line feeds.
pub open spec fn segments(s: Seq<u8>) -> Seq<Seq<u8>>
    decreases s.len(),
{
    if s.len() == 0 {
        seq![Seq::<u8>::empty()]
    } else {
        let prev = segments(s.drop_last());
        if s.last() == 10u8 {
            prev.push(Seq::<u8>::empty())
        } else {
            prev.update(prev.len() - 1, prev.last().push(s.last()))
        }
    }
}

/// A line without the carriage return that may end it.
pub open spec fn strip_cr(seg: Seq<u8>) -> Seq<u8> {
    if seg.len() > 0 && seg.last() == 13u8 {
        seg.drop_last()
    } else {
        seg
    }
}

/// The four characters a map may hold: `.`, `H`, `R` and `S`.
pub open spec fn is_cell_byte(b: u8) -> bool {
    b == 46u8 || b == 72u8 || b == 82u8 || b == 83u8
}

/// The element that a map character stands for.
pub open spec fn element_of(b: u8) -> MapElement {
    if b == 72u8 {
        MapElement::Household
    } else if b == 82u8 {
        MapElement::Road
    } else if b == 83u8 {
        MapElement::Store
    } else {
        MapElement::Background
    }
}

/// Whether every character of a line is a map character.
pub open spec fn row_valid(seg: Seq<u8>) -> bool {
    forall|i: int| 0 <= i < strip_cr(seg).len() ==> is_cell_byte(#[trigger] strip_cr(seg)[i])
}

/// The elements of one line of a map.
pub open spec fn row_elements(seg: Seq<u8>) -> Seq<MapElement> {
    strip_cr(seg).map_values(|b: u8| element_of(b))
}

/// The grid that a map text describes, its first line as the last row, or
/// `None` where the text is empty, holds another character, or its lines
/// differ in length.
pub open spec fn grid_of_text(s: Seq<u8>) -> Option<Seq<Seq<MapElement>>> {
    let t = trimmed(s);
    let segs = segments(t);
    if t.len() > 0 && (forall|i: int| 0 <= i < segs.len() ==> row_valid(#[trigger] segs[i]))
        && row_elements(segs[0]).len() > 0 && (forall|i: int|
        0 <= i < segs.len() ==> (#[trigger] row_elements(segs[i])).len() == row_elements(
            segs[0],
        ).len()) {
        Some(Seq::new(segs.len(), |i: int| row_elements(segs[segs.len() - 1 - i])))
    } else {
        None
    }
}

/// The contents of a vector of byte vectors.
pub open spec fn bytes_view(s: Seq<Vec<u8>>) -> Seq<Seq<u8>> {
    s.map_values(|v: Vec<u8>| v@)
}

/// The contents of a vector of rows.
pub open spec fn grid_view(s: Seq<Vec<MapElement>>) -> Seq<Seq<MapElement>> {
    s.map_values(|v: Vec<MapElement>| v@)
}

fn is_space_byte(b: u8) -> (r: bool)
    ensures
        r == is_space(b),
{
    b == 32 || (9 <= b && b <= 13)
}

/// Splits `b[lo..hi]` at each line feed.
fn split_segments(b: &[u8], lo: usize, hi: usize) -> (r: Vec<Vec<u8>>)
    requires
        lo <= hi <= b@.len(),
    ensures
        bytes_view(r@) == segments(b@.subrange(lo as int, hi as int)),
{
    let mut done: Vec<Vec<u8>> = Vec::new();
    let mut cur: Vec<u8> = Vec::new();
    let mut i: usize = lo;
    proof {
        assert(b@.subrange(lo as int, lo as int) =~= Seq::<u8>::empty());
        assert(bytes_view(done@).push(cur@) =~= seq![Seq::<u8>::empty()]);
    }
    while i < hi
        invariant
            lo <= i <= hi <= b@.len(),
            bytes_view(done@).push(cur@) == segments(b@.subrange(lo as int, i as int)),
        decreases hi - i,
    {
        let ghost prev = segments(b@.subrange(lo as int, i as int));
        proof {
            let next = b@.subrange(lo as int, i + 1);
            assert(next.drop_last() =~= b@.subrange(lo as int, i as int));
            assert(next.last() == b@[i as int]);
        }
        let c = b[i];
        if c == 10 {
            done.push(cur);
            cur = Vec::new();
            proof {
                assert(bytes_view(done@).push(cur@) =~= prev.push(Seq::<u8>::empty()));
            }
        } else {
            cur.push(c);
            proof {
                assert(bytes_view(done@).push(cur@) =~= prev.update(
                    prev.len() - 1,
                    prev.last().push(c),
                ));
            }
        }
        i += 1;
    }
    done.push(cur);
    proof {
        assert(bytes_view(done@) =~= segments(b@.subrange(lo as int, hi as int)));
    }
    done
}

fn element_of_byte(b: u8) -> (r: Option<MapElement>)
    ensures
        r is Some <==> is_cell_byte(b),
        r is Some ==> r->0 == element_of(b),
{
    if b == 46 {
        Some(MapElement::Background)
    } else if b == 72 {
        Some(MapElement::Household)
    } else if b == 82 {
        Some(MapElement::Road)
    } else if b == 83 {
        Some(MapElement::Store)
    } else {
        None
    }
}

/// The elements of one line, or `None` where it holds another character.
fn parse_row(seg: &Vec<u8>) -> (r: Option<Vec<MapElement>>)
    ensures
        r is Some <==> row_valid(seg@),
        r is Some ==> r->0@ == row_elements(seg@),
{
    let mut n = seg.len();
    if n > 0 && seg[n - 1] == 13 {
        n = n - 1;
    }
    let ghost cells = strip_cr(seg@);
    assert(cells =~= seg@.subrange(0, n as int));
    let mut out: Vec<MapElement> = Vec::new();
    let mut i: usize = 0;
    while i < n
        invariant
            i <= n,
            n == cells.len(),
            cells == strip_cr(seg@),
            cells =~= seg@.subrange(0, n as int),
            out@ =~= cells.subrange(0, i as int).map_values(|b: u8| element_of(b)),
            forall|j: int| 0 <= j < i ==> is_cell_byte(#[trigger] cells[j]),
        decreases n - i,
    {
        match element_of_byte(seg[i]) {
            Some(e) => {
                out.push(e);
            },
            None => {
                assert(!is_cell_byte(cells[i as int]));
                return None;
            },
        }
        i += 1;
    }
    assert(cells.subrange(0, n as int) =~= cells);
    Some(out)
}


proof fn lemma_segments_len(s: Seq<u8>)
    ensures
        segments(s).len() >= 1,
    decreases s.len(),
{
    if s.len() > 0 {
        lemma_segments_len(s.drop_last());
    }
}

/// The bounds `lo..hi` of `b` without white space at either end.
fn trim_bounds(b: &[u8]) -> (r: (usize, usize))
    ensures
        r.0 <= r.1 <= b@.len(),
        b@.subrange(r.0 as int, r.1 as int) == trimmed(b@),
{
    let n = b.len();
    let mut lo: usize = 0;
    assert(b@.subrange(0, n as int) =~= b@);
    while lo < n && is_space_byte(b[lo])
        invariant
            lo <= n == b@.len(),
            trim_front(b@) == trim_front(b@.subrange(lo as int, n as int)),
        decreases n - lo,
    {
        assert(b@.subrange(lo as int, n as int).drop_first() =~= b@.subrange(lo + 1, n as int));
        lo += 1;
    }
    let ghost front = b@.subrange(lo as int, n as int);
    assert(trim_front(front) == front);
    let mut hi: usize = n;
    while hi > lo && is_space_byte(b[hi - 1])
        invariant
            lo <= hi <= n == b@.len(),
            front == b@.subrange(lo as int, n as int),
            trim_back(front) == trim_back(b@.subrange(lo as int, hi as int)),
        decreases hi,
    {
        assert(b@.subrange(lo as int, hi as int).drop_last() =~= b@.subrange(lo as int, hi - 1));
        hi -= 1;
    }
    assert(trim_back(b@.subrange(lo as int, hi as int)) == b@.subrange(lo as int, hi as int));
    (lo, hi)
}

impl WorldMap {
    /// Parses a map text into rows of elements, its first line becoming the
    /// last row.
    pub fn load_lines(s: &str) -> (r: Result<Vec<Vec<MapElement>>, MapError>)
        ensures
            match r {
                Ok(g) => grid_of_text(s.spec_bytes()) == Some(grid_view(g@)),
                Err(e) => e == MapError::MalformedMap && grid_of_text(s.spec_bytes()) is None,
            },
    {
        let b = s.as_bytes();
        let (lo, hi) = trim_bounds(b);
        let ghost t = trimmed(b@);
        if lo == hi {
            return Err(MapError::MalformedMap);
        }
        let segs = split_segments(b, lo, hi);
        let ghost sv = bytes_view(segs@);
        assert(sv == segments(t));
        let mut rows: Vec<Vec<MapElement>> = Vec::new();
        let mut k: usize = 0;
        while k < segs.len()
            invariant
                k <= segs@.len() == sv.len(),
                rows@.len() == k,
                sv == bytes_view(segs@),
                b@ == s.spec_bytes(),
                t == trimmed(b@),
                sv == segments(t),
                t.len() > 0,
                grid_view(rows@) =~= Seq::new(k as nat, |i: int| row_elements(sv[i])),
                forall|i: int| 0 <= i < k ==> row_valid(#[trigger] sv[i]),
            decreases segs@.len() - k,
        {
            assert(sv[k as int] == segs@[k as int]@);
            match parse_row(&segs[k]) {
                Some(row) => {
                    let ghost before = rows@;
                    rows.push(row);
                    assert(grid_view(rows@) =~= grid_view(before).push(row@));
                },
                None => {
                    assert(!row_valid(sv[k as int]));
                    assert(grid_of_text(s.spec_bytes()) is None);
                    return Err(MapError::MalformedMap);
                },
            }
            k += 1;
        }
        proof {
            lemma_segments_len(t);
        }
        let num_cols = rows[0].len();
        assert(grid_view(rows@)[0] == rows@[0]@);
        if num_cols == 0 {
            return Err(MapError::MalformedMap);
        }
        let mut k: usize = 1;
        while k < rows.len()
            invariant
                1 <= k <= rows@.len(),
                rows@.len() == sv.len(),
                b@ == s.spec_bytes(),
                t == trimmed(b@),
                sv == segments(t),
                t.len() > 0,
                forall|i: int| 0 <= i < sv.len() ==> row_valid(#[trigger] sv[i]),
                grid_view(rows@) =~= Seq::new(sv.len(), |i: int| row_elements(sv[i])),
                num_cols == row_elements(sv[0]).len(),
                forall|i: int| 0 <= i < k ==> (#[trigger] row_elements(sv[i])).len() == num_cols,
            decreases rows@.len() - k,
        {
            assert(grid_view(rows@)[k as int] == rows@[k as int]@);
            if rows[k].len() != num_cols {
                assert(row_elements(sv[k as int]).len() != row_elements(sv[0]).len());
                assert(grid_of_text(s.spec_bytes()) is None);
                return Err(MapError::MalformedMap);
            }
            k += 1;
        }
        let ghost fwd = grid_view(rows@);
        let n = rows.len();
        let mut out: Vec<Vec<MapElement>> = Vec::new();
        while out.len() < n
            invariant
                out@.len() + rows@.len() == n,
                fwd.len() == n,
                grid_view(out@).len() == out@.len(),
                n == fwd.len(),
                grid_view(rows@) =~= fwd.subrange(0, rows@.len() as int),
                grid_view(out@) =~= Seq::new(out@.len(), |i: int| fwd[n - 1 - i]),
            decreases n - out@.len(),
        {
            let ghost before = rows@;
            let row = rows.pop().unwrap();
            proof {
                assert(row@ == grid_view(before)[before.len() - 1]);
                assert(grid_view(rows@) =~= grid_view(before).drop_last());
            }
            let ghost out_before = out@;
            out.push(row);
            proof {
                assert(grid_view(out@) =~= grid_view(out_before).push(row@));
                assert(row@ == fwd[rows@.len() as int]);
            }
        }
        proof {
            assert(grid_view(out@) =~= Seq::new(sv.len(), |i: int| row_elements(sv[sv.len() - 1 - i])));
        }
        Ok(out)
    }
}

pub(crate) proof fn lemma_grid_of_text_shape(s: Seq<u8>)
    ensures
        match grid_of_text(s) {
            Some(g) => g.len() > 0 && g[0].len() > 0 && forall|i: int|
                0 <= i < g.len() ==> (#[trigger] g[i]).len() == g[0].len(),
            None => true,
        },
{
    let t = trimmed(s);
    let segs = segments(t);
    lemma_segments_len(t);
    if let Some(g) = grid_of_text(s) {
        assert(g[0] == row_elements(segs[segs.len() - 1]));
        assert forall|i: int| 0 <= i < g.len() implies (#[trigger] g[i]).len() == g[0].len() by {
            assert(g[i] == row_elements(segs[segs.len() - 1 - i]));
        }
    }
}

} // verus!
