//! Bytes of a transcript: its lines, and the text of a line.
use vstd::prelude::*;
use vstd::utf8::{encode_utf8, valid_utf8};

verus! {

/// Where the first line break at or after `i` stands; the end where there is none.
pub open spec fn break_from(data: Seq<u8>, i: int) -> int
    decreases data.len() - i,
{
    if i < 0 || i >= data.len() || data[i] == 10 {
        i
    } else {
        break_from(data, i + 1)
    }
}

/// The search for a line break goes forward, over no break, to one or to the end.
pub proof fn break_from_bounds(data: Seq<u8>, i: int)
    requires
        0 <= i <= data.len(),
    ensures
        i <= break_from(data, i) <= data.len(),
        break_from(data, i) < data.len() ==> data[break_from(data, i)] == 10,
        forall|k: int| i <= k < break_from(data, i) ==> data[k] != 10,
    decreases data.len() - i,
{
    if i < data.len() && data[i] != 10 {
        break_from_bounds(data, i + 1);
    }
}

/// The lines from a position on, each with where it begins. A line break ends a
/// line and belongs to none; what follows the last break is a line unless
/// nothing does.
pub open spec fn lines_from(data: Seq<u8>, i: int) -> Seq<(int, Seq<u8>)>
    decreases data.len() + 1 - i,
    via lines_from_ends
{
    if i < 0 || i >= data.len() {
        seq![]
    } else {
        seq![(i, data.subrange(i, break_from(data, i)))] + lines_from(data, break_from(data, i) + 1)
    }
}

#[via_fn]
proof fn lines_from_ends(data: Seq<u8>, i: int) {
    if 0 <= i < data.len() {
        break_from_bounds(data, i);
    }
}

/// The lines of some bytes, each with where it begins.
pub open spec fn lines_of(data: Seq<u8>) -> Seq<(int, Seq<u8>)> {
    lines_from(data, 0)
}

/// Borrowed lines, as mathematics.
pub open spec fn line_views(v: Seq<(u64, &[u8])>) -> Seq<(int, Seq<u8>)> {
    Seq::new(v.len(), |k: int| (v[k].0 as int, v[k].1@))
}

/// The lines of some bytes, each with where it begins.
pub fn lines_with_offsets<'a>(data: &'a [u8]) -> (r: Vec<(u64, &'a [u8])>)
    ensures
        line_views(r@) == lines_of(data@),
{
    let mut out: Vec<(u64, &'a [u8])> = Vec::new();
    let n: usize = data.len();
    let mut start: usize = 0;
    let mut done: bool = n == 0;
    assert(line_views(out@) + lines_from(data@, 0) =~= lines_of(data@));
    while !done
        invariant
            n == data.len(),
            !done ==> start < n,
            !done ==> line_views(out@) + lines_from(data@, start as int) == lines_of(data@),
            done ==> line_views(out@) == lines_of(data@),
        decreases
                n - start,
                if done {
                    0int
                } else {
                    1
                },
    {
        let mut end: usize = start;
        while end < n && data[end] != 10
            invariant
                n == data.len(),
                start <= end <= n,
                break_from(data@, start as int) == break_from(data@, end as int),
            decreases n - end,
        {
            end = end + 1;
        }
        assert(end == break_from(data@, start as int));
        let ghost before = line_views(out@);
        let line: &'a [u8] = vstd::slice::slice_subrange(data, start, end);
        out.push((start as u64, line));
        proof {
            assert(line_views(out@) =~= before.push((start as int, line@)));
            assert(lines_from(data@, start as int) =~= seq![(start as int, line@)] + lines_from(
                data@,
                end + 1,
            ));
            assert(line_views(out@) + lines_from(data@, end + 1) =~= before + lines_from(
                data@,
                start as int,
            ));
        }
        if end < n - 1 {
            start = end + 1;
        } else {
            assert(lines_from(data@, end + 1) =~= seq![]);
            assert(line_views(out@) + lines_from(data@, end + 1) =~= line_views(out@));
            done = true;
        }
    }
    out
}

/// The text that `String::from_utf8_lossy` makes of some bytes.
pub uninterp spec fn lossy_text(bytes: Seq<u8>) -> Seq<char>;

/// `String::from_utf8_lossy`: the text depends on the bytes alone, and bytes that
/// are UTF-8 come out as the text they encode.
#[verifier::external_body]
fn lossy(bytes: &[u8]) -> (r: String)
    ensures
        r@ == lossy_text(bytes@),
        valid_utf8(bytes@) ==> encode_utf8(r@) == bytes@,
{
    String::from_utf8_lossy(bytes).into_owned()
}

/// The text of some bytes, whatever they hold.
pub fn text_from_bytes(bytes: &[u8]) -> (r: String)
    ensures
        r@ == lossy_text(bytes@),
        valid_utf8(bytes@) ==> encode_utf8(r@) == bytes@,
{
    lossy(bytes)
}

/// Lines begin one after another, and none holds a line break.
pub proof fn lines_ascend(data: Seq<u8>, i: int)
    requires
        0 <= i,
    ensures
        forall|k: int|
            0 <= k < lines_from(data, i).len() ==> i <= (#[trigger] lines_from(data, i)[k]).0
                < data.len(),
        forall|j: int, k: int|
            0 <= j < k < lines_from(data, i).len() ==> (#[trigger] lines_from(data, i)[j]).0
                + lines_from(data, i)[j].1.len() < (#[trigger] lines_from(data, i)[k]).0,
        forall|k: int, m: int|
            0 <= k < lines_from(data, i).len() && 0 <= m < lines_from(data, i)[k].1.len()
                ==> #[trigger] lines_from(data, i)[k].1[m] != 10,
    decreases data.len() + 1 - i,
{
    if i < data.len() {
        let e = break_from(data, i);
        break_from_bounds(data, i);
        lines_ascend(data, e + 1);
        let rest = lines_from(data, e + 1);
        let all = lines_from(data, i);
        assert(all =~= seq![(i, data.subrange(i, e))] + rest);
        assert forall|k: int| 0 < k < all.len() implies #[trigger] all[k] == rest[k - 1] by {}
    }
}

/// Bytes followed by more bytes have the lines of both, where the first part
/// ends with a line break: reading in pieces is reading at once.
pub proof fn lines_in_pieces(a: Seq<u8>, b: Seq<u8>, i: int)
    requires
        0 <= i <= a.len(),
        a.len() == 0 || a.last() == 10,
    ensures
        lines_from(a + b, i) == lines_from(a, i) + shifted(lines_from(b, 0), a.len() as int),
    decreases a.len() - i,
{
    let whole = a + b;
    if i < a.len() {
        break_from_bounds(a, i);
        let e = break_from(a, i);
        if e == a.len() {
            assert(a[a.len() - 1] != 10);
        }
        break_in_front(a, b, i);
        lines_in_pieces(a, b, e + 1);
        assert(whole.subrange(i, e) =~= a.subrange(i, e));
        assert(lines_from(whole, i) =~= seq![(i, a.subrange(i, e))] + lines_from(whole, e + 1));
        assert(lines_from(whole, i) =~= lines_from(a, i) + shifted(
            lines_from(b, 0),
            a.len() as int,
        ));
    } else {
        lines_shift(a, b, 0);
        assert(lines_from(a, i) =~= seq![]);
        assert(lines_from(whole, i) =~= lines_from(a, i) + shifted(
            lines_from(b, 0),
            a.len() as int,
        ));
    }
}

/// Lines that begin so many bytes later.
pub open spec fn shifted(v: Seq<(int, Seq<u8>)>, by: int) -> Seq<(int, Seq<u8>)> {
    Seq::new(v.len(), |k: int| (v[k].0 + by, v[k].1))
}

proof fn break_in_front(a: Seq<u8>, b: Seq<u8>, i: int)
    requires
        0 <= i <= a.len(),
        break_from(a, i) < a.len(),
    ensures
        break_from(a + b, i) == break_from(a, i),
    decreases a.len() - i,
{
    if i < a.len() && a[i] != 10 {
        break_in_front(a, b, i + 1);
    }
}

proof fn break_shift(a: Seq<u8>, b: Seq<u8>, i: int)
    requires
        0 <= i <= b.len(),
    ensures
        break_from(a + b, a.len() + i) == a.len() + break_from(b, i),
    decreases b.len() - i,
{
    if i < b.len() && b[i] != 10 {
        break_shift(a, b, i + 1);
    }
}

proof fn lines_shift(a: Seq<u8>, b: Seq<u8>, i: int)
    requires
        0 <= i,
    ensures
        lines_from(a + b, a.len() + i) == shifted(lines_from(b, i), a.len() as int),
    decreases b.len() + 1 - i,
{
    let whole = a + b;
    if i < b.len() {
        let e = break_from(b, i);
        break_from_bounds(b, i);
        break_shift(a, b, i);
        lines_shift(a, b, e + 1);
        assert(whole.subrange(a.len() + i, a.len() + e) =~= b.subrange(i, e));
        assert(lines_from(whole, a.len() + i) =~= shifted(lines_from(b, i), a.len() as int));
    } else {
        assert(lines_from(whole, a.len() + i) =~= shifted(lines_from(b, i), a.len() as int));
    }
}

/// Lines cover the bytes: each is what stands between two line breaks, or an end and one, and
/// the next begins behind the break; nothing but the breaks is left out.
pub proof fn lines_are_what_stands_between_breaks(data: Seq<u8>, from: int)
    requires
        0 <= from <= data.len(),
    ensures
        ({
            let all = lines_from(data, from);
            &&& from < data.len() <==> all.len() > 0
            &&& all.len() > 0 ==> all[0].0 == from
            &&& forall|k: int|
                0 <= k < all.len() ==> {
                    let (start, line) = #[trigger] all[k];
                    let end = start + line.len();
                    &&& from <= start && end <= data.len()
                    &&& line == data.subrange(start, end)
                    &&& !line.contains(10)
                    &&& end < data.len() ==> data[end] == 10
                    &&& k + 1 < all.len() ==> all[k + 1].0 == end + 1
                    &&& k + 1 == all.len() ==> end + 1 >= data.len()
                }
        }),
    decreases data.len() - from,
{
    if from < data.len() {
        break_from_bounds(data, from);
        let end = break_from(data, from);
        first_break(data, from);
        let line = data.subrange(from, end);
        assert(!line.contains(10)) by {
            if line.contains(10) {
                let i = line.index_of(10);
                assert(data[from + i] == 10);
            }
        }
        let all = lines_from(data, from);
        if end + 1 <= data.len() {
            lines_are_what_stands_between_breaks(data, end + 1);
            let rest = lines_from(data, end + 1);
            assert(all =~= seq![(from, line)] + rest);
            assert forall|k: int| 0 <= k < all.len() implies {
                let (start, line) = #[trigger] all[k];
                let end = start + line.len();
                &&& from <= start && end <= data.len()
                &&& line == data.subrange(start, end)
                &&& !line.contains(10)
                &&& end < data.len() ==> data[end] == 10
                &&& k + 1 < all.len() ==> all[k + 1].0 == end + 1
                &&& k + 1 == all.len() ==> end + 1 >= data.len()
            } by {
                if k > 0 {
                    assert(all[k] == rest[k - 1]);
                    if k + 1 < all.len() {
                        assert(all[k + 1] == rest[k]);
                    }
                } else if all.len() > 1 {
                    assert(all[1] == rest[0]);
                }
            }
        } else {
            assert(lines_from(data, end + 1) =~= seq![]);
            assert(all =~= seq![(from, line)]);
        }
    }
}

proof fn first_break(data: Seq<u8>, i: int)
    requires
        0 <= i <= data.len(),
    ensures
        i <= break_from(data, i) <= data.len(),
        forall|k: int| i <= k < break_from(data, i) ==> #[trigger] data[k] != 10,
        break_from(data, i) < data.len() ==> data[break_from(data, i)] == 10,
    decreases data.len() - i,
{
    if i < data.len() && data[i] != 10 {
        first_break(data, i + 1);
    }
}

/// A list of lines is shown line by line, each with its place and its bytes.
pub proof fn lines_are_shown_with_their_places(v: Seq<(u64, &[u8])>)
    ensures
        line_views(v).len() == v.len(),
        forall|i: int|
            0 <= i < v.len() ==> (#[trigger] line_views(v)[i]).0 == v[i].0 && line_views(v)[i].1
                == v[i].1@,
{
}

} // verus!
