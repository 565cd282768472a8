//! The text form of a map: one line per row, a space for floor and any
//! other character for wall.
use vstd::prelude::*;
use vstd::string::StringSliceAdditionalSpecFns;
use crate::map_buffer::{lemma_cell_index, MapBuffer};

verus! {

/// The pieces of `b` between line feeds, as splitting on `'\n'` gives them.
pub open spec fn split_lines(b: Seq<u8>) -> Seq<Seq<u8>>
    decreases b.len(),
{
    if b.len() == 0 {
        seq![seq![]]
    } else {
        let s = split_lines(b.drop_last());
        if b.last() == 10u8 {
            s.push(seq![])
        } else {
            s.update(s.len() - 1, s.last().push(b.last()))
        }
    }
}

pub proof fn lemma_split_nonempty(b: Seq<u8>)
    ensures
        split_lines(b).len() >= 1,
    decreases b.len(),
{
    if b.len() > 0 {
        lemma_split_nonempty(b.drop_last());
    }
}

/// A one-byte white space character: tab, line feed, vertical tab, form
/// feed, carriage return or space.
pub open spec fn is_ws(c: u8) -> bool {
    c == 32 || c == 9 || c == 10 || c == 11 || c == 12 || c == 13
}

/// A two-byte white space character in UTF-8: U+0085 or U+00A0.
pub open spec fn is_ws2(a: u8, b: u8) -> bool {
    a == 0xc2 && (b == 0x85 || b == 0xa0)
}

/// A three-byte white space character in UTF-8: U+1680, U+2000 to U+200A,
/// U+2028, U+2029, U+202F, U+205F or U+3000.
pub open spec fn is_ws3(a: u8, b: u8, c: u8) -> bool {
    (a == 0xe1 && b == 0x9a && c == 0x80) || (a == 0xe2 && b == 0x80 && ((0x80 <= c && c <= 0x8a) || c == 0xa8
        || c == 0xa9 || c == 0xaf)) || (a == 0xe2 && b == 0x81 && c == 0x9f) || (a == 0xe3 && b == 0x80 && c
        == 0x80)
}

/// Length in bytes of the white space character `l` starts with; 0 if none.
pub open spec fn lead_ws(l: Seq<u8>) -> int {
    if l.len() >= 1 && is_ws(l[0]) {
        1
    } else if l.len() >= 2 && is_ws2(l[0], l[1]) {
        2
    } else if l.len() >= 3 && is_ws3(l[0], l[1], l[2]) {
        3
    } else {
        0
    }
}

/// Length in bytes of the white space character `l` ends with; 0 if none.
pub open spec fn trail_ws(l: Seq<u8>) -> int {
    let n = l.len() as int;
    if n >= 1 && is_ws(l[n - 1]) {
        1
    } else if n >= 2 && is_ws2(l[n - 2], l[n - 1]) {
        2
    } else if n >= 3 && is_ws3(l[n - 3], l[n - 2], l[n - 1]) {
        3
    } else {
        0
    }
}

/// `l` without the white space characters it starts with.
pub open spec fn trim_start(l: Seq<u8>) -> Seq<u8>
    decreases l.len(),
{
    if lead_ws(l) > 0 {
        trim_start(l.subrange(lead_ws(l), l.len() as int))
    } else {
        l
    }
}

/// `l` without the white space characters it ends with.
pub open spec fn trim_end(l: Seq<u8>) -> Seq<u8>
    decreases l.len(),
{
    if trail_ws(l) > 0 {
        trim_end(l.subrange(0, l.len() - trail_ws(l)))
    } else {
        l
    }
}

pub open spec fn trim(l: Seq<u8>) -> Seq<u8> {
    trim_end(trim_start(l))
}

/// The trimmed pieces that are not empty, in order.
pub open spec fn kept_lines(pieces: Seq<Seq<u8>>) -> Seq<Seq<u8>>
    decreases pieces.len(),
{
    if pieces.len() == 0 {
        seq![]
    } else {
        let k = kept_lines(pieces.drop_last());
        let t = trim(pieces.last());
        if t.len() > 0 {
            k.push(t)
        } else {
            k
        }
    }
}

/// The rows a text describes.
pub open spec fn text_lines(b: Seq<u8>) -> Seq<Seq<u8>> {
    kept_lines(split_lines(b))
}

pub open spec fn max_len(ls: Seq<Seq<u8>>) -> nat
    decreases ls.len(),
{
    if ls.len() == 0 {
        0
    } else {
        let m = max_len(ls.drop_last());
        if ls.last().len() > m {
            ls.last().len()
        } else {
            m
        }
    }
}

/// Width of the map a text describes: its longest row, or 1 without rows.
pub open spec fn text_width(b: Seq<u8>) -> nat {
    if text_lines(b).len() == 0 {
        1
    } else {
        max_len(text_lines(b))
    }
}

/// `l` with white space removed at both ends.
pub fn trim_bytes(l: &Vec<u8>) -> (r: Vec<u8>)
    ensures
        r@ == trim(l@),
{
    let n = l.len();
    let mut s: usize = 0;
    assert(l@.subrange(0, n as int) =~= l@);
    let mut k = lead_len(l, 0, n);
    while k > 0
        invariant
            n == l@.len(),
            s <= n,
            k == lead_ws(l@.subrange(s as int, n as int)),
            trim_start(l@) == trim_start(l@.subrange(s as int, n as int)),
        decreases n - s,
    {
        proof {
            let sub = l@.subrange(s as int, n as int);
            assert(sub.subrange(k as int, sub.len() as int) =~= l@.subrange(s + k, n as int));
        }
        s = s + k;
        k = lead_len(l, s, n);
    }
    let ghost t = l@.subrange(s as int, n as int);
    assert(trim_start(t) == t);
    let mut e: usize = n;
    let mut k = trail_len(l, s, e);
    while k > 0
        invariant
            n == l@.len(),
            s <= e <= n,
            k == trail_ws(l@.subrange(s as int, e as int)),
            t == l@.subrange(s as int, n as int),
            trim_end(t) == trim_end(l@.subrange(s as int, e as int)),
        decreases e - s,
    {
        proof {
            let sub = l@.subrange(s as int, e as int);
            assert(sub.subrange(0, sub.len() - k) =~= l@.subrange(s as int, e - k));
        }
        e = e - k;
        k = trail_len(l, s, e);
    }
    let mut r: Vec<u8> = Vec::new();
    let mut i = s;
    while i < e
        invariant
            n == l@.len(),
            s <= i <= e <= n,
            r@ == l@.subrange(s as int, i as int),
        decreases e - i,
    {
        r.push(l[i]);
        proof {
            assert(r@ =~= l@.subrange(s as int, i + 1));
        }
        i = i + 1;
    }
    r
}

/// Length of the white space character at `l[s..n]`'s start; 0 if none.
fn lead_len(l: &Vec<u8>, s: usize, n: usize) -> (r: usize)
    requires
        s <= n == l@.len(),
    ensures
        r == lead_ws(l@.subrange(s as int, n as int)),
        r <= n - s,
{
    let ghost sub = l@.subrange(s as int, n as int);
    if s < n && (l[s] == 32 || l[s] == 9 || l[s] == 10 || l[s] == 11 || l[s] == 12 || l[s] == 13) {
        assert(sub[0] == l@[s as int]);
        1
    } else if n - s >= 2 && l[s] == 0xc2 && (l[s + 1] == 0x85 || l[s + 1] == 0xa0) {
        assert(sub[0] == l@[s as int] && sub[1] == l@[s + 1]);
        2
    } else if n - s >= 3 && is_ws3_bytes(l[s], l[s + 1], l[s + 2]) {
        assert(sub[0] == l@[s as int] && sub[1] == l@[s + 1] && sub[2] == l@[s + 2]);
        3
    } else {
        proof {
            if sub.len() >= 1 {
                assert(sub[0] == l@[s as int]);
            }
            if sub.len() >= 2 {
                assert(sub[1] == l@[s + 1]);
            }
            if sub.len() >= 3 {
                assert(sub[2] == l@[s + 2]);
            }
        }
        0
    }
}

/// Length of the white space character at `l[s..e]`'s end; 0 if none.
fn trail_len(l: &Vec<u8>, s: usize, e: usize) -> (r: usize)
    requires
        s <= e <= l@.len(),
    ensures
        r == trail_ws(l@.subrange(s as int, e as int)),
        r <= e - s,
{
    let ghost sub = l@.subrange(s as int, e as int);
    let len = e - s;
    proof {
        if len >= 1 {
            assert(sub[len - 1] == l@[e - 1]);
        }
        if len >= 2 {
            assert(sub[len - 2] == l@[e - 2]);
        }
        if len >= 3 {
            assert(sub[len - 3] == l@[e - 3]);
        }
    }
    if len >= 1 && (l[e - 1] == 32 || l[e - 1] == 9 || l[e - 1] == 10 || l[e - 1] == 11 || l[e - 1] == 12
        || l[e - 1] == 13) {
        1
    } else if len >= 2 && l[e - 2] == 0xc2 && (l[e - 1] == 0x85 || l[e - 1] == 0xa0) {
        2
    } else if len >= 3 && is_ws3_bytes(l[e - 3], l[e - 2], l[e - 1]) {
        3
    } else {
        0
    }
}

fn is_ws3_bytes(a: u8, b: u8, c: u8) -> (r: bool)
    ensures
        r == is_ws3(a, b, c),
{
    (a == 0xe1 && b == 0x9a && c == 0x80) || (a == 0xe2 && b == 0x80 && ((0x80 <= c && c <= 0x8a) || c == 0xa8
        || c == 0xa9 || c == 0xaf)) || (a == 0xe2 && b == 0x81 && c == 0x9f) || (a == 0xe3 && b == 0x80 && c
        == 0x80)
}

/// The rows of the text `b`: split on line feeds, trimmed, blank ones left out.
pub fn lines_of(b: &[u8]) -> (r: Vec<Vec<u8>>)
    ensures
        r@.len() == text_lines(b@).len(),
        forall|i: int| #![trigger r@[i]] 0 <= i < r@.len() ==> r@[i]@ == text_lines(b@)[i],
{
    let mut lines: Vec<Vec<u8>> = Vec::new();
    let mut cur: Vec<u8> = Vec::new();
    let ghost done: Seq<Seq<u8>> = seq![];
    let mut i: usize = 0;
    while i < b.len()
        invariant
            i <= b@.len(),
            split_lines(b@.subrange(0, i as int)) == done.push(cur@),
            lines@.len() == kept_lines(done).len(),
            forall|k: int| #![trigger lines@[k]] 0 <= k < lines@.len() ==> lines@[k]@ == kept_lines(done)[k],
        decreases b@.len() - i,
    {
        let c = b[i];
        proof {
            assert(b@.subrange(0, i + 1).drop_last() =~= b@.subrange(0, i as int));
        }
        if c == 10 {
            let t = trim_bytes(&cur);
            proof {
                assert(done.push(cur@).drop_last() =~= done);
                assert(done.push(cur@).last() == cur@);
            }
            if t.len() > 0 {
                lines.push(t);
            }
            proof {
                done = done.push(cur@);
            }
            cur = Vec::new();
            proof {
                assert(split_lines(b@.subrange(0, i + 1)) =~= done.push(cur@));
            }
        } else {
            cur.push(c);
            proof {
                assert(split_lines(b@.subrange(0, i + 1)) =~= done.push(cur@));
            }
        }
        i = i + 1;
    }
    let t = trim_bytes(&cur);
    proof {
        assert(done.push(cur@).drop_last() =~= done);
    }
    if t.len() > 0 {
        lines.push(t);
    }
    proof {
        assert(b@.subrange(0, i as int) =~= b@);
    }
    lines
}

impl MapBuffer {
    /// Reads a map from text: rows are the lines once trimmed, blank lines
    /// left out; the map is as wide as the longest row, and a space marks a
    /// floor cell. A map too large to index reads as an empty 0 by 0 map.
    pub fn from_bytes(b: &[u8]) -> (r: MapBuffer)
        ensures
            r.wf(),
            r.starting_point.is_none(),
            r.exit_point.is_none(),
            r@.rooms.len() == 0,
            r@.corridors.len() == 0,
            text_width(b@) * text_lines(b@).len() <= usize::MAX ==> {
                &&& r.width == text_width(b@)
                &&& r.height == text_lines(b@).len()
                &&& forall|x: int, y: int|
                    #![trigger r.walkable_at(x, y)]
                    r.walkable_at(x, y) == (r.in_bounds(x, y) && x < text_lines(b@)[y].len()
                        && text_lines(b@)[y][x] == 32u8)
            },
    {
        let lines = lines_of(b);
        let ghost ls = text_lines(b@);
        let mut cols: usize = 0;
        let mut k: usize = 0;
        while k < lines.len()
            invariant
                lines@.len() == ls.len(),
                forall|i: int| #![trigger lines@[i]] 0 <= i < lines@.len() ==> lines@[i]@ == ls[i],
                k <= lines@.len(),
                cols == max_len(ls.subrange(0, k as int)),
            decreases lines@.len() - k,
        {
            proof {
                assert(ls.subrange(0, k + 1).drop_last() =~= ls.subrange(0, k as int));
            }
            if lines[k].len() > cols {
                cols = lines[k].len();
            }
            k = k + 1;
        }
        proof {
            assert(ls.subrange(0, k as int) =~= ls);
        }
        if lines.len() == 0 {
            cols = 1;
        }
        let rows = lines.len();
        match cols.checked_mul(rows) {
            None => MapBuffer::new(0, 0),
            Some(_) => {
                let mut map = MapBuffer::new(cols, rows);
                assert forall|x: int, y: int| #![trigger map.walkable_at(x, y)] !map.walkable_at(x, y) by {
                    if map.in_bounds(x, y) {
                        lemma_cell_index(cols as int, rows as int, x, y);
                    }
                }
                let mut y: usize = 0;
                while y < rows
                    invariant
                        map.wf(),
                        map.width == cols,
                        map.height == rows,
                        map.starting_point.is_none(),
                        map.exit_point.is_none(),
                        map@.rooms.len() == 0,
                        map@.corridors.len() == 0,
                        rows == ls.len(),
                        lines@.len() == ls.len(),
                        forall|i: int| #![trigger lines@[i]] 0 <= i < lines@.len() ==> lines@[i]@ == ls[i],
                        ls.len() > 0 ==> cols == max_len(ls),
                        y <= rows,
                        forall|a: int, b: int|
                            #![trigger map.walkable_at(a, b)]
                            map.walkable_at(a, b) == (map.in_bounds(a, b) && b < y && a < ls[b].len() && ls[b][a] == 32u8),
                    decreases rows - y,
                {
                    let line = &lines[y];
                    proof {
                        lemma_max_len(ls, y as int);
                    }
                    let mut x: usize = 0;
                    while x < line.len()
                        invariant
                            map.wf(),
                            map.width == cols,
                            map.height == rows,
                            map.starting_point.is_none(),
                            map.exit_point.is_none(),
                            map@.rooms.len() == 0,
                            map@.corridors.len() == 0,
                            rows == ls.len(),
                            y < rows,
                            line@ == ls[y as int],
                            line@.len() <= cols,
                            x <= line@.len(),
                            forall|a: int, b: int|
                                #![trigger map.walkable_at(a, b)]
                                map.walkable_at(a, b) == (map.in_bounds(a, b) && ((b < y && a < ls[b].len()
                                    && ls[b][a] == 32u8) || (b == y && a < x && ls[b][a] == 32u8))),
                        decreases line@.len() - x,
                    {
                        if line[x] == 32 {
                            let ghost before = map;
                            map.set_walkable(x, y, true);
                            proof {
                                crate::cave::lemma_set_cell(before, map, x as int, y as int, true);
                            }
                        }
                        x = x + 1;
                    }
                    y = y + 1;
                }
                map
            },
        }
    }

    /// Reads a map from a string, as `from_bytes` reads its bytes.
    pub fn from_string(map_string: &str) -> (r: MapBuffer)
        ensures
            r.wf(),
            r.starting_point.is_none(),
            r.exit_point.is_none(),
            r@.rooms.len() == 0,
            r@.corridors.len() == 0,
            text_width(map_string.spec_bytes()) * text_lines(map_string.spec_bytes()).len() <= usize::MAX ==> {
                &&& r.width == text_width(map_string.spec_bytes())
                &&& r.height == text_lines(map_string.spec_bytes()).len()
                &&& forall|x: int, y: int|
                    #![trigger r.walkable_at(x, y)]
                    r.walkable_at(x, y) == (r.in_bounds(x, y) && x < text_lines(map_string.spec_bytes())[y].len()
                        && text_lines(map_string.spec_bytes())[y][x] == 32u8)
            },
    {
        MapBuffer::from_bytes(map_string.as_bytes())
    }
}

/// Row `y` of `m` as text, without its line feed: `' '` for floor, `'#'`
/// for wall.
pub open spec fn row_text(m: MapBuffer, y: int) -> Seq<u8> {
    Seq::new(m.width as nat, |x: int| if m.walkable_at(x, y) { 32u8 } else { 35u8 })
}

/// The first `k` rows of `m` as text, each ended by a line feed.
pub open spec fn render_rows(m: MapBuffer, k: int) -> Seq<u8>
    decreases k,
{
    if k <= 0 {
        seq![]
    } else {
        render_rows(m, k - 1) + row_text(m, k - 1).push(10u8)
    }
}

/// `m` as text.
pub open spec fn render(m: MapBuffer) -> Seq<u8> {
    render_rows(m, m.height as int)
}

/// The first and last cell of every row are wall.
pub open spec fn rows_walled(m: MapBuffer) -> bool {
    forall|y: int|
        0 <= y < m.height ==> !#[trigger] m.walkable_at(0, y) && !m.walkable_at(m.width - 1, y)
}

impl MapBuffer {
    /// The map as text: one line per row, `'#'` for wall and `' '` for
    /// floor, each line ended by a line feed.
    pub fn to_bytes(&self) -> (r: Vec<u8>)
        requires
            self.wf(),
        ensures
            r@ == render(*self),
    {
        let mut out: Vec<u8> = Vec::new();
        let mut y: usize = 0;
        while y < self.height
            invariant
                self.wf(),
                y <= self.height,
                out@ == render_rows(*self, y as int),
            decreases self.height - y,
        {
            let ghost start = out@;
            let mut x: usize = 0;
            while x < self.width
                invariant
                    self.wf(),
                    y < self.height,
                    x <= self.width,
                    out@ == start + row_text(*self, y as int).subrange(0, x as int),
                decreases self.width - x,
            {
                if self.is_blocked(x, y) {
                    out.push(35);
                } else {
                    out.push(32);
                }
                proof {
                    assert(out@ =~= start + row_text(*self, y as int).subrange(0, x + 1));
                }
                x = x + 1;
            }
            out.push(10);
            proof {
                assert(row_text(*self, y as int).subrange(0, x as int) =~= row_text(*self, y as int));
                assert(out@ =~= render_rows(*self, y + 1));
            }
            y = y + 1;
        }
        out
    }
}

/// Text without a line feed extends the last piece.
proof fn lemma_split_plain(a: Seq<u8>, c: Seq<u8>)
    requires
        forall|i: int| 0 <= i < c.len() ==> c[i] != 10u8,
    ensures
        split_lines(a + c) == split_lines(a).update(split_lines(a).len() - 1, split_lines(a).last() + c),
    decreases c.len(),
{
    lemma_split_nonempty(a);
    if c.len() == 0 {
        assert(a + c =~= a);
        assert(split_lines(a).last() + c =~= split_lines(a).last());
        assert(split_lines(a).update(split_lines(a).len() - 1, split_lines(a).last()) =~= split_lines(a));
    } else {
        let c0 = c.drop_last();
        lemma_split_plain(a, c0);
        assert((a + c).drop_last() =~= a + c0);
        assert((a + c).last() == c.last());
        lemma_split_nonempty(a + c0);
        let s0 = split_lines(a);
        assert((s0.last() + c0).push(c.last()) =~= s0.last() + c);
        assert(split_lines(a + c) =~= s0.update(s0.len() - 1, s0.last() + c));
    }
}

/// Split into lines, the text of `m` gives its rows and a last empty piece.
proof fn lemma_split_render(m: MapBuffer, k: int)
    requires
        0 <= k <= m.height,
    ensures
        split_lines(render_rows(m, k)) == Seq::new(k as nat, |y: int| row_text(m, y)).push(seq![]),
    decreases k,
{
    if k == 0 {
        assert(split_lines(render_rows(m, 0)) =~= Seq::new(0, |y: int| row_text(m, y)).push(seq![]));
    } else {
        lemma_split_render(m, k - 1);
        let a = render_rows(m, k - 1);
        let row = row_text(m, k - 1);
        lemma_split_plain(a, row);
        let whole = render_rows(m, k);
        assert(whole == a + row.push(10u8));
        assert(whole.drop_last() =~= a + row);
        assert(whole.last() == 10u8);
        let prev = Seq::new((k - 1) as nat, |y: int| row_text(m, y)).push(seq![]);
        assert(prev.update(prev.len() - 1, prev.last() + row).push(seq![]) =~= Seq::new(
            k as nat,
            |y: int| row_text(m, y),
        ).push(seq![]));
    }
}

proof fn lemma_trim_row(m: MapBuffer, y: int)
    requires
        m.wf(),
        m.width >= 1,
        0 <= y < m.height,
        rows_walled(m),
    ensures
        trim(row_text(m, y)) == row_text(m, y),
        row_text(m, y).len() > 0,
{
    let row = row_text(m, y);
    assert(!m.walkable_at(0, y));
    assert(!m.walkable_at(m.width - 1, y));
    assert(row[0] == 35u8);
    assert(row.last() == 35u8);
}

proof fn lemma_kept_rows(m: MapBuffer, k: int)
    requires
        m.wf(),
        m.width >= 1,
        0 <= k <= m.height,
        rows_walled(m),
    ensures
        kept_lines(Seq::new(k as nat, |y: int| row_text(m, y))) == Seq::new(k as nat, |y: int| row_text(m, y)),
        max_len(Seq::new(k as nat, |y: int| row_text(m, y))) == if k == 0 { 0 } else { m.width as int },
    decreases k,
{
    if k > 0 {
        lemma_kept_rows(m, k - 1);
        lemma_trim_row(m, k - 1);
        let rows = Seq::new(k as nat, |y: int| row_text(m, y));
        assert(rows.drop_last() =~= Seq::new((k - 1) as nat, |y: int| row_text(m, y)));
        assert(kept_lines(rows) =~= rows);
    }
}

/// Reading back the text of a map whose rows begin and end with wall gives
/// the same map: as many rows, as wide, with floor in the same cells.
pub proof fn lemma_text_round_trip(m: MapBuffer)
    requires
        m.wf(),
        m.width >= 1,
        m.height >= 1,
        rows_walled(m),
    ensures
        text_lines(render(m)).len() == m.height,
        text_width(render(m)) == m.width,
        text_width(render(m)) * text_lines(render(m)).len() <= usize::MAX,
        forall|x: int, y: int|
            #![trigger m.walkable_at(x, y)]
            m.in_bounds(x, y) ==> (x < text_lines(render(m))[y].len() && text_lines(render(m))[y][x] == 32u8)
                == m.walkable_at(x, y),
{
    let h = m.height as int;
    let rows = Seq::new(h as nat, |y: int| row_text(m, y));
    lemma_split_render(m, h);
    lemma_kept_rows(m, h);
    lemma_trim_row(m, 0);
    let pieces = rows.push(seq![]);
    assert(pieces.drop_last() =~= rows);
    assert(trim(pieces.last()) =~= seq![]);
    assert(text_lines(render(m)) == rows);
    assert forall|x: int, y: int|
        #![trigger m.walkable_at(x, y)]
        m.in_bounds(x, y) implies (x < text_lines(render(m))[y].len() && text_lines(render(m))[y][x] == 32u8)
            == m.walkable_at(x, y) by {
        assert(rows[y] == row_text(m, y));
    }
}

/// Every row is at most as long as the longest.
pub proof fn lemma_max_len(ls: Seq<Seq<u8>>, i: int)
    requires
        0 <= i < ls.len(),
    ensures
        ls[i].len() <= max_len(ls),
    decreases ls.len(),
{
    if i < ls.len() - 1 {
        lemma_max_len(ls.drop_last(), i);
    }
}

} // verus!
