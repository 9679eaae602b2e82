//! Edge-network markers in a response head: whether its header text shows
//! that a reply came through the edge network, and which trace id it carries.
use crate::names::{copy_range, split_bytes, split_on, trim, trim_range, views};
use vstd::prelude::*;

verus! {

/// ASCII lower case of a byte.
pub open spec fn fold(c: u8) -> u8 {
    if 65 <= c <= 90 {
        (c + 32) as u8
    } else {
        c
    }
}

/// `a` begins with `w`, ignoring ASCII case.
pub open spec fn starts_with_folded(a: Seq<u8>, w: Seq<u8>) -> bool {
    w.len() <= a.len() && forall|i: int| 0 <= i < w.len() ==> fold(#[trigger] a[i]) == fold(w[i])
}

fn fold_byte(c: u8) -> (r: u8)
    ensures
        r == fold(c),
{
    if 65 <= c && c <= 90 {
        c + 32
    } else {
        c
    }
}

fn starts_with_ignore_case(a: &Vec<u8>, w: &Vec<u8>) -> (r: bool)
    ensures
        r == starts_with_folded(a@, w@),
{
    if w.len() > a.len() {
        return false;
    }
    let mut i: usize = 0;
    while i < w.len()
        invariant
            i <= w@.len() <= a@.len(),
            forall|j: int| 0 <= j < i ==> fold(#[trigger] a@[j]) == fold(w@[j]),
        decreases w@.len() - i,
    {
        if fold_byte(a[i]) != fold_byte(w[i]) {
            return false;
        }
        i = i + 1;
    }
    true
}

/// The word `https`.
pub open spec fn https_word() -> Seq<u8> {
    seq![104u8, 116, 116, 112, 115]
}

/// `hay` holds `needle` somewhere, ignoring ASCII case.
pub open spec fn contains_folded(hay: Seq<u8>, needle: Seq<u8>) -> bool {
    exists|i: int| 0 <= i <= hay.len() - needle.len() && #[trigger] starts_with_folded(
        hay.subrange(i, hay.len() as int),
        needle,
    )
}

fn starts_at_ignore_case(hay: &Vec<u8>, at: usize, w: &Vec<u8>) -> (r: bool)
    requires
        at <= hay@.len(),
    ensures
        r == starts_with_folded(hay@.subrange(at as int, hay@.len() as int), w@),
{
    let ghost rest = hay@.subrange(at as int, hay@.len() as int);
    let n = hay.len();
    if w.len() > n - at {
        return false;
    }
    let mut i: usize = 0;
    while i < w.len()
        invariant
            n == hay@.len(),
            at <= hay@.len(),
            rest == hay@.subrange(at as int, hay@.len() as int),
            rest.len() == hay@.len() - at,
            i <= w@.len() <= rest.len(),
            forall|j: int| 0 <= j < i ==> fold(#[trigger] rest[j]) == fold(w@[j]),
        decreases w@.len() - i,
    {
        if fold_byte(hay[at + i]) != fold_byte(w[i]) {
            assert(rest[i as int] == hay@[at + i]);
            return false;
        }
        i = i + 1;
    }
    true
}

fn contains_ignore_case(body: &Vec<u8>, w: &Vec<u8>) -> (r: bool)
    ensures
        r == contains_folded(body@, w@),
{
    if body.len() < w.len() {
        return false;
    }
    let last = body.len() - w.len();
    let mut i: usize = 0;
    while i <= last
        invariant
            last == body@.len() - w@.len(),
            i <= last + 1,
            forall|j: int| 0 <= j < i ==> !#[trigger] starts_with_folded(
                body@.subrange(j, body@.len() as int),
                w@,
            ),
        decreases last + 1 - i,
    {
        if starts_at_ignore_case(body, i, &w) {
            return true;
        }
        if i == last {
            return false;
        }
        i = i + 1;
    }
    false
}

/// Whether a response body tells the client to use HTTPS (it mentions
/// `https`, in any case), as a 400 from a TLS port served plain HTTP does.
pub fn body_asks_for_https(body: &Vec<u8>) -> (r: bool)
    ensures
        r == contains_folded(body@, https_word()),
{
    let w = vec![104u8, 116, 116, 112, 115];
    assert(w@ =~= https_word());
    contains_ignore_case(body, &w)
}

/// `cf-ray:`, the trace-id header as it starts a header line.
pub open spec fn ray_field() -> Seq<u8> {
    seq![99u8, 102, 45, 114, 97, 121, 58]
}

/// `server: cloudflare`
pub open spec fn edge_server_field() -> Seq<u8> {
    seq![115u8, 101, 114, 118, 101, 114, 58, 32, 99, 108, 111, 117, 100, 102, 108, 97, 114, 101]
}

/// `cf-cache-status:`
pub open spec fn cache_status_field() -> Seq<u8> {
    seq![99u8, 102, 45, 99, 97, 99, 104, 101, 45, 115, 116, 97, 116, 117, 115, 58]
}

/// The header text of a response: one `name: value` line per header, in order.
pub open spec fn head_text(headers: Seq<(Vec<u8>, Vec<u8>)>) -> Seq<u8>
    decreases headers.len(),
{
    if headers.len() == 0 {
        Seq::empty()
    } else {
        head_text(headers.drop_last()) + headers.last().0@ + seq![58u8, 32u8] + headers.last().1@
            + seq![10u8]
    }
}

/// A header text shows the edge network when it holds, in any case,
/// `cf-ray:`, `server: cloudflare` or `cf-cache-status:` anywhere.
pub open spec fn shows_edge(head: Seq<u8>) -> bool {
    ||| contains_folded(head, ray_field())
    ||| contains_folded(head, edge_server_field())
    ||| contains_folded(head, cache_status_field())
}

/// The trace id of the last line among `lines` that starts, in any case,
/// with `cf-ray:`: the text between that line's first and second colon,
/// trimmed; `None` when no line starts so.
pub open spec fn marker_of_lines(lines: Seq<Seq<u8>>) -> Option<Seq<u8>>
    decreases lines.len(),
{
    if lines.len() == 0 {
        None
    } else if starts_with_folded(lines.last(), ray_field()) {
        let parts = split_on(lines.last(), 58u8);
        if parts.len() >= 2 {
            Some(trim(parts[1]))
        } else {
            None
        }
    } else {
        marker_of_lines(lines.drop_last())
    }
}

/// Renders response headers as header text (see `head_text`).
pub fn render_head(headers: &Vec<(Vec<u8>, Vec<u8>)>) -> (r: Vec<u8>)
    ensures
        r@ == head_text(headers@),
{
    let mut r: Vec<u8> = Vec::new();
    let mut k: usize = 0;
    while k < headers.len()
        invariant
            k <= headers@.len(),
            r@ == head_text(headers@.subrange(0, k as int)),
        decreases headers@.len() - k,
    {
        let ghost before = r@;
        let name = &headers[k].0;
        let value = &headers[k].1;
        let mut i: usize = 0;
        while i < name.len()
            invariant
                i <= name@.len(),
                r@ == before + name@.subrange(0, i as int),
            decreases name@.len() - i,
        {
            r.push(name[i]);
            assert(r@ =~= before + name@.subrange(0, i + 1));
            i = i + 1;
        }
        r.push(58);
        r.push(32);
        let ghost mid = r@;
        let mut j: usize = 0;
        while j < value.len()
            invariant
                j <= value@.len(),
                r@ == mid + value@.subrange(0, j as int),
            decreases value@.len() - j,
        {
            r.push(value[j]);
            assert(r@ =~= mid + value@.subrange(0, j + 1));
            j = j + 1;
        }
        r.push(10);
        proof {
            let hs = headers@.subrange(0, k + 1);
            assert(hs.drop_last() =~= headers@.subrange(0, k as int));
            assert(hs.last() == headers@[k as int]);
            assert(name@.subrange(0, name@.len() as int) =~= name@);
            assert(value@.subrange(0, value@.len() as int) =~= value@);
            assert(r@ =~= head_text(hs));
        }
        k = k + 1;
    }
    assert(headers@.subrange(0, headers@.len() as int) =~= headers@);
    r
}

/// Whether the header text shows that the reply came through the edge
/// network (see `shows_edge`); the secondary confirmation for addresses
/// outside the edge table.
pub fn head_confirms_edge(head: &Vec<u8>) -> (r: bool)
    ensures
        r == shows_edge(head@),
{
    let ray = vec![99u8, 102, 45, 114, 97, 121, 58];
    let server = vec![115u8, 101, 114, 118, 101, 114, 58, 32, 99, 108, 111, 117, 100, 102, 108, 97, 114, 101];
    let cache = vec![99u8, 102, 45, 99, 97, 99, 104, 101, 45, 115, 116, 97, 116, 117, 115, 58];
    assert(ray@ =~= ray_field());
    assert(server@ =~= edge_server_field());
    assert(cache@ =~= cache_status_field());
    contains_ignore_case(head, &ray) || contains_ignore_case(head, &server) || contains_ignore_case(
        head,
        &cache,
    )
}

/// The trace id of a header text (see `marker_of_lines`), the marker that
/// the prober reports.
pub fn trace_marker(head: &Vec<u8>) -> (r: Option<Vec<u8>>)
    ensures
        r matches Some(m) ==> marker_of_lines(split_on(head@, 10u8)) == Some(m@),
        r is None ==> marker_of_lines(split_on(head@, 10u8)) is None,
{
    let lines = split_bytes(head, 10);
    let ghost ls = views(lines@);
    let field = vec![99u8, 102, 45, 114, 97, 121, 58];
    assert(field@ =~= ray_field());
    let mut k: usize = lines.len();
    assert(ls.subrange(0, k as int) =~= ls);
    while k > 0
        invariant
            k <= lines@.len(),
            ls == views(lines@),
            ls == split_on(head@, 10u8),
            field@ == ray_field(),
            marker_of_lines(ls) == marker_of_lines(ls.subrange(0, k as int)),
        decreases k,
    {
        let line = &lines[k - 1];
        let ghost pre = ls.subrange(0, k as int);
        proof {
            assert(pre.last() == line@);
            assert(pre.drop_last() =~= ls.subrange(0, k - 1));
        }
        if starts_with_ignore_case(line, &field) {
            let parts = split_bytes(line, 58);
            if parts.len() >= 2 {
                let piece = &parts[1];
                assert(views(parts@)[1] == piece@);
                let (a, b) = trim_range(piece, 0, piece.len());
                assert(piece@.subrange(0, piece@.len() as int) =~= piece@);
                return Some(copy_range(piece, a, b));
            }
            return None;
        }
        k = k - 1;
    }
    None
}

} // verus!
