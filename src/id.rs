//! The message-identifier scanner: a list of `<...>` identifiers in a header
//! value that may be folded over several lines.
use vstd::prelude::*;

use crate::stream::MessageStream;

verus! {

/// What `String::from_utf8_lossy` makes of a byte sequence.
pub uninterp spec fn utf8_lossy(b: Seq<u8>) -> Seq<char>;

/// The characters of a byte sequence that is all ASCII.
pub open spec fn ascii_chars(b: Seq<u8>) -> Seq<char> {
    b.map_values(|c: u8| c as char)
}

/// Relies on `String::from_utf8_lossy`: the result depends on the bytes alone,
/// and bytes that are valid UTF-8, such as ASCII, come back as they are.
#[verifier::external_body]
fn lossy_string(data: &Vec<u8>, start: usize, end: usize) -> (r: String)
    requires
        start <= end <= data@.len(),
    ensures
        r@ == utf8_lossy(data@.subrange(start as int, end as int)),
        (forall|k: int| start <= k < end ==> data@[k] < 0x80) ==> r@ == ascii_chars(
            data@.subrange(start as int, end as int),
        ),
{
    String::from_utf8_lossy(&data[start..end]).into_owned()
}

/// A byte that may follow a line break to fold the field onto the next line.
pub open spec fn is_fold(b: u8) -> bool {
    b == 0x20 || b == 0x09
}

/// A byte that is never part of an identifier's bounds: space, tab, CR.
pub open spec fn is_blank(b: u8) -> bool {
    b == 0x20 || b == 0x09 || b == 0x0d
}

/// The identifier scan from byte `i` on. `open` tells whether a `<` has been
/// seen and not closed yet, `cur` holds the bounds `[s, e)` of the identifier
/// being collected (from its first to its last byte that is not blank), and
/// `found` the bounds of those already closed by `>`. A `<` starts the
/// identifier afresh.
///
/// Returns where the scan stops and the identifiers found: a line break that
/// does not fold, or the end of the buffer, ends the field, with `None` where
/// nothing was found.
pub open spec fn id_scan(
    data: Seq<u8>,
    i: int,
    open: bool,
    cur: Option<(int, int)>,
    found: Seq<(int, int)>,
) -> (int, Option<Seq<(int, int)>>)
    decreases data.len() - i,
{
    if i >= data.len() {
        (data.len() as int, if found.len() > 0 { Some(found) } else { None })
    } else if data[i] == 0x0a {
        if i + 1 < data.len() && is_fold(data[i + 1]) {
            id_scan(data, i + 2, open, cur, found)
        } else {
            (i + 1, if found.len() > 0 { Some(found) } else { None })
        }
    } else if data[i] == 0x3c {
        id_scan(data, i + 1, true, None, found)
    } else if data[i] == 0x3e {
        match cur {
            Some(span) => id_scan(data, i + 1, false, None, found.push(span)),
            None => id_scan(data, i + 1, false, None, found),
        }
    } else if is_blank(data[i]) || !open {
        id_scan(data, i + 1, open, cur, found)
    } else {
        match cur {
            Some(span) => id_scan(data, i + 1, open, Some((span.0, i + 1)), found),
            None => id_scan(data, i + 1, open, Some((i, i + 1)), found),
        }
    }
}

/// The identifier field that starts at `pos`: where its scan stops, and the
/// bounds of the identifiers in it.
pub open spec fn id_field(data: Seq<u8>, pos: int) -> (int, Option<Seq<(int, int)>>) {
    id_scan(data, pos, false, None, Seq::empty())
}

/// The bounds `[s, e)` lie in a buffer of `len` bytes, and are not empty.
pub open spec fn span_in(span: (int, int), len: int) -> bool {
    0 <= span.0 < span.1 <= len
}

/// `ids` holds, in order, the text of the identifiers with bounds `spans`.
pub open spec fn texts_of(ids: Seq<String>, data: Seq<u8>, spans: Seq<(int, int)>) -> bool {
    &&& ids.len() == spans.len()
    &&& forall|k: int|
        0 <= k < ids.len() ==> #[trigger] ids[k]@ == utf8_lossy(
            data.subrange(spans[k].0, spans[k].1),
        )
    &&& forall|k: int|
        0 <= k < ids.len() && (forall|j: int| spans[k].0 <= j < spans[k].1 ==> data[j] < 0x80)
            ==> #[trigger] ids[k]@ == ascii_chars(data.subrange(spans[k].0, spans[k].1))
}

/// Reads a list of message identifiers (`Message-ID`, `In-Reply-To`,
/// `References`) from the stream's position, and moves the position to where
/// the field ends. `None` stands for a field without identifiers.
pub fn parse_id(stream: &mut MessageStream) -> (r: Option<Vec<String>>)
    requires
        old(stream).wf(),
    ensures
        final(stream).wf(),
        final(stream).data@ == old(stream).data@,
        final(stream).pos == id_field(old(stream).data@, old(stream).pos as int).0,
        match id_field(old(stream).data@, old(stream).pos as int).1 {
            None => r is None,
            Some(spans) => r is Some && texts_of(r->0@, old(stream).data@, spans),
        },
{
    let ghost data = stream.data@;
    let ghost pos0 = stream.pos as int;
    let len = stream.data.len();
    let mut i: usize = stream.pos;
    let mut open = false;
    let mut has_cur = false;
    let mut cur_start: usize = 0;
    let mut cur_end: usize = 0;
    let mut ids: Vec<String> = Vec::new();
    let ghost mut found: Seq<(int, int)> = Seq::empty();
    while i < len
        invariant
            len == data.len(),
            stream.data@ == data,
            stream.pos == pos0,
            data == old(stream).data@,
            pos0 == old(stream).pos,
            pos0 <= len,
            i <= len,
            id_scan(data, i as int, open, if has_cur { Some((cur_start as int, cur_end as int)) } else { None }, found)
                == id_field(data, pos0),
            has_cur ==> cur_start < cur_end <= i,
            texts_of(ids@, data, found),
            forall|k: int| 0 <= k < found.len() ==> span_in(#[trigger] found[k], len as int),
        decreases len - i,
    {
        let ch = stream.data[i];
        if ch == 0x0a {
            if i + 1 < len && (stream.data[i + 1] == 0x20 || stream.data[i + 1] == 0x09) {
                i = i + 2;
            } else {
                stream.pos = i + 1;
                return if ids.len() > 0 { Some(ids) } else { None };
            }
        } else if ch == 0x3c {
            open = true;
            has_cur = false;
            i = i + 1;
        } else if ch == 0x3e {
            if has_cur {
                let id = lossy_string(&stream.data, cur_start, cur_end);
                ids.push(id);
                proof {
                    found = found.push((cur_start as int, cur_end as int));
                }
                has_cur = false;
            }
            open = false;
            i = i + 1;
        } else if ch == 0x20 || ch == 0x09 || ch == 0x0d || !open {
            i = i + 1;
        } else {
            if !has_cur {
                cur_start = i;
                has_cur = true;
            }
            cur_end = i + 1;
            i = i + 1;
        }
    }
    stream.pos = len;
    if ids.len() > 0 {
        Some(ids)
    } else {
        None
    }
}

/// Two buffers of one length that agree from `i` on are scanned alike from `i`.
proof fn lemma_scan_same_suffix(
    d1: Seq<u8>,
    d2: Seq<u8>,
    i: int,
    open: bool,
    cur: Option<(int, int)>,
    found: Seq<(int, int)>,
)
    requires
        d1.len() == d2.len(),
        forall|j: int| i <= j < d1.len() ==> d1[j] == d2[j],
    ensures
        id_scan(d1, i, open, cur, found) == id_scan(d2, i, open, cur, found),
    decreases d1.len() - i,
{
    if i < d1.len() {
        if d1[i] == 0x0a {
            if i + 1 < d1.len() && is_fold(d1[i + 1]) {
                lemma_scan_same_suffix(d1, d2, i + 2, open, cur, found);
            }
        } else if d1[i] == 0x3c {
            lemma_scan_same_suffix(d1, d2, i + 1, true, None, found);
        } else if d1[i] == 0x3e {
            match cur {
                Some(span) => lemma_scan_same_suffix(d1, d2, i + 1, false, None, found.push(span)),
                None => lemma_scan_same_suffix(d1, d2, i + 1, false, None, found),
            }
        } else if is_blank(d1[i]) || !open {
            lemma_scan_same_suffix(d1, d2, i + 1, open, cur, found);
        } else {
            match cur {
                Some(span) => lemma_scan_same_suffix(d1, d2, i + 1, open, Some((span.0, i + 1)), found),
                None => lemma_scan_same_suffix(d1, d2, i + 1, open, Some((i, i + 1)), found),
            }
        }
    }
}

/// Scanning `v + "\n\n" + w` and `v + "\n\n"` from `i <= v.len()` gives the
/// same result.
proof fn lemma_scan_blank_line(
    v: Seq<u8>,
    w: Seq<u8>,
    i: int,
    open: bool,
    cur: Option<(int, int)>,
    found: Seq<(int, int)>,
)
    requires
        0 <= i <= v.len(),
    ensures
        id_scan(v + seq![0x0au8, 0x0au8] + w, i, open, cur, found) == id_scan(
            v + seq![0x0au8, 0x0au8],
            i,
            open,
            cur,
            found,
        ),
        id_scan(v + seq![0x0au8, 0x0au8], i, open, cur, found).0 <= v.len() + 1,
    decreases v.len() - i,
{
    let d1 = v + seq![0x0au8, 0x0au8] + w;
    let d2 = v + seq![0x0au8, 0x0au8];
    assert(d1[v.len() as int] == 0x0a && d1[v.len() as int + 1] == 0x0a);
    assert(d2[v.len() as int] == 0x0a && d2[v.len() as int + 1] == 0x0a);
    if i < v.len() {
        assert(d1[i] == d2[i]);
        assert(d1[i + 1] == d2[i + 1]);
        if d1[i] == 0x0a {
            if is_fold(d1[i + 1]) {
                lemma_scan_blank_line(v, w, i + 2, open, cur, found);
            }
        } else if d1[i] == 0x3c {
            lemma_scan_blank_line(v, w, i + 1, true, None, found);
        } else if d1[i] == 0x3e {
            match cur {
                Some(span) => lemma_scan_blank_line(v, w, i + 1, false, None, found.push(span)),
                None => lemma_scan_blank_line(v, w, i + 1, false, None, found),
            }
        } else if is_blank(d1[i]) || !open {
            lemma_scan_blank_line(v, w, i + 1, open, cur, found);
        } else {
            match cur {
                Some(span) => lemma_scan_blank_line(v, w, i + 1, open, Some((span.0, i + 1)), found),
                None => lemma_scan_blank_line(v, w, i + 1, open, Some((i, i + 1)), found),
            }
        }
    }
}

/// A blank line ends the field: whatever follows `v + "\n\n"` is never read,
/// so identifiers after the blank line are not part of the field.
pub proof fn law_blank_line_ends_field(v: Seq<u8>, w: Seq<u8>)
    ensures
        id_field(v + seq![0x0au8, 0x0au8] + w, 0) == id_field(v + seq![0x0au8, 0x0au8], 0),
        id_field(v + seq![0x0au8, 0x0au8] + w, 0).0 <= v.len() + 1,
{
    lemma_scan_blank_line(v, w, 0, false, None, Seq::empty());
}

/// Scanning `v + "\n" + c + w` and `v + " " + c + w` from `i <= v.len()` gives
/// the same result.
proof fn lemma_scan_fold(
    v: Seq<u8>,
    c: u8,
    w: Seq<u8>,
    i: int,
    open: bool,
    cur: Option<(int, int)>,
    found: Seq<(int, int)>,
)
    requires
        is_fold(c),
        v.len() == 0 || v.last() != 0x0a,
        0 <= i <= v.len(),
    ensures
        id_scan(v + seq![0x0au8, c] + w, i, open, cur, found) == id_scan(
            v + seq![0x20u8, c] + w,
            i,
            open,
            cur,
            found,
        ),
    decreases v.len() - i,
{
    let d1 = v + seq![0x0au8, c] + w;
    let d2 = v + seq![0x20u8, c] + w;
    let n = v.len() as int;
    assert(d1[n] == 0x0a && d1[n + 1] == c);
    assert(d2[n] == 0x20 && d2[n + 1] == c);
    if i == n {
        assert forall|j: int| n + 2 <= j < d1.len() implies d1[j] == d2[j] by {
            assert(d1[j] == w[j - n - 2]);
            assert(d2[j] == w[j - n - 2]);
        }
        lemma_scan_same_suffix(d1, d2, n + 2, open, cur, found);
        assert(id_scan(d2, n + 1, open, cur, found) == id_scan(d2, n + 2, open, cur, found));
        assert(id_scan(d2, n, open, cur, found) == id_scan(d2, n + 1, open, cur, found));
    } else {
        assert(d1[i] == d2[i]);
        if i + 1 < n {
            assert(d1[i + 1] == d2[i + 1]);
        }
        if d1[i] == 0x0a {
            assert(i + 1 < n);
            if is_fold(d1[i + 1]) {
                lemma_scan_fold(v, c, w, i + 2, open, cur, found);
            }
        } else if d1[i] == 0x3c {
            lemma_scan_fold(v, c, w, i + 1, true, None, found);
        } else if d1[i] == 0x3e {
            match cur {
                Some(span) => lemma_scan_fold(v, c, w, i + 1, false, None, found.push(span)),
                None => lemma_scan_fold(v, c, w, i + 1, false, None, found),
            }
        } else if is_blank(d1[i]) || !open {
            lemma_scan_fold(v, c, w, i + 1, open, cur, found);
        } else {
            match cur {
                Some(span) => lemma_scan_fold(v, c, w, i + 1, open, Some((span.0, i + 1)), found),
                None => lemma_scan_fold(v, c, w, i + 1, open, Some((i, i + 1)), found),
            }
        }
    }
}

/// A line break followed by a space or a tab continues the field: the scan
/// stops at the same place and finds identifiers with the same bounds as where
/// the line break is a space. (`v` must not end with a line break of its own,
/// which would make the pair a blank line.)
pub proof fn law_fold_continues_field(v: Seq<u8>, c: u8, w: Seq<u8>)
    requires
        is_fold(c),
        v.len() == 0 || v.last() != 0x0a,
    ensures
        id_field(v + seq![0x0au8, c] + w, 0) == id_field(v + seq![0x20u8, c] + w, 0),
{
    lemma_scan_fold(v, c, w, 0, false, None, Seq::empty());
}

/// Scanning `x + "\n\n" + y` and `x + "\n"` from `i <= x.len()`, where `x` holds
/// no line break, gives the same result, which stops just past `x`'s end.
proof fn lemma_scan_single_line(
    x: Seq<u8>,
    y: Seq<u8>,
    i: int,
    open: bool,
    cur: Option<(int, int)>,
    found: Seq<(int, int)>,
)
    requires
        0 <= i <= x.len(),
        forall|j: int| 0 <= j < x.len() ==> x[j] != 0x0a,
    ensures
        id_scan(x + seq![0x0au8, 0x0au8] + y, i, open, cur, found) == id_scan(
            x + seq![0x0au8],
            i,
            open,
            cur,
            found,
        ),
        id_scan(x + seq![0x0au8], i, open, cur, found).0 == x.len() + 1,
    decreases x.len() - i,
{
    let d1 = x + seq![0x0au8, 0x0au8] + y;
    let d2 = x + seq![0x0au8];
    assert(d1[x.len() as int] == 0x0a && d1[x.len() as int + 1] == 0x0a);
    assert(d2[x.len() as int] == 0x0a);
    if i < x.len() {
        assert(d1[i] == x[i] && d2[i] == x[i]);
        if d1[i] == 0x3c {
            lemma_scan_single_line(x, y, i + 1, true, None, found);
        } else if d1[i] == 0x3e {
            match cur {
                Some(span) => lemma_scan_single_line(x, y, i + 1, false, None, found.push(span)),
                None => lemma_scan_single_line(x, y, i + 1, false, None, found),
            }
        } else if is_blank(d1[i]) || !open {
            lemma_scan_single_line(x, y, i + 1, open, cur, found);
        } else {
            match cur {
                Some(span) => lemma_scan_single_line(x, y, i + 1, open, Some((span.0, i + 1)), found),
                None => lemma_scan_single_line(x, y, i + 1, open, Some((i, i + 1)), found),
            }
        }
    }
}

/// A blank line after a one-line value ends the field just as a single final
/// line break does: the field stops just past the value's end, and no
/// identifier after the blank line is returned.
pub proof fn law_blank_line_is_end_of_field(x: Seq<u8>, y: Seq<u8>)
    requires
        forall|j: int| 0 <= j < x.len() ==> x[j] != 0x0a,
    ensures
        id_field(x + seq![0x0au8, 0x0au8] + y, 0) == id_field(x + seq![0x0au8], 0),
        id_field(x + seq![0x0au8], 0).0 == x.len() + 1,
{
    lemma_scan_single_line(x, y, 0, false, None, Seq::empty());
}

proof fn lemma_scan_result(
    data: Seq<u8>,
    i: int,
    open: bool,
    cur: Option<(int, int)>,
    found: Seq<(int, int)>,
)
    ensures
        match id_scan(data, i, open, cur, found).1 {
            Some(spans) => spans.len() > 0,
            None => true,
        },
        (found.len() == 0 && cur is None && !open && forall|j: int|
            i <= j < data.len() ==> data[j] != 0x3c) ==> id_scan(data, i, open, cur, found).1 is None,
    decreases data.len() - i,
{
    if i < data.len() {
        if data[i] == 0x0a {
            if i + 1 < data.len() && is_fold(data[i + 1]) {
                lemma_scan_result(data, i + 2, open, cur, found);
            }
        } else if data[i] == 0x3c {
            lemma_scan_result(data, i + 1, true, None, found);
        } else if data[i] == 0x3e {
            match cur {
                Some(span) => lemma_scan_result(data, i + 1, false, None, found.push(span)),
                None => lemma_scan_result(data, i + 1, false, None, found),
            }
        } else if is_blank(data[i]) || !open {
            lemma_scan_result(data, i + 1, open, cur, found);
        } else {
            match cur {
                Some(span) => lemma_scan_result(data, i + 1, open, Some((span.0, i + 1)), found),
                None => lemma_scan_result(data, i + 1, open, Some((i, i + 1)), found),
            }
        }
    }
}

/// A field yields either no result or a non-empty list, never an empty one;
/// one without any `<` from `pos` on yields no result.
pub proof fn law_absent_not_empty(data: Seq<u8>, pos: int)
    ensures
        match id_field(data, pos).1 {
            Some(spans) => spans.len() > 0,
            None => true,
        },
        (forall|j: int| pos <= j < data.len() ==> data[j] != 0x3c) ==> id_field(data, pos).1 is None,
{
    lemma_scan_result(data, pos, false, None, Seq::empty());
}

} // verus!
