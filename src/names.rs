//! Candidate names from a candidate source's raw text: certificate-log
//! name lists and wordlists. Names are handled as bytes.
use vstd::prelude::*;

verus! {

/// ASCII whitespace: space, tab, line feed, vertical tab, form feed, carriage return.
pub open spec fn is_ws(c: u8) -> bool {
    c == 32 || (9 <= c <= 13)
}

/// The pieces of `s` between occurrences of `sep`; an empty text is one
/// empty piece.
pub open spec fn split_on(s: Seq<u8>, sep: u8) -> Seq<Seq<u8>>
    decreases s.len(),
{
    if s.len() == 0 {
        seq![Seq::empty()]
    } else {
        let r = split_on(s.drop_last(), sep);
        if s.last() == sep {
            r.push(Seq::empty())
        } else {
            r.update(r.len() - 1, r.last().push(s.last()))
        }
    }
}

proof fn lemma_split_nonempty(s: Seq<u8>, sep: u8)
    ensures
        split_on(s, sep).len() >= 1,
    decreases s.len(),
{
    if s.len() > 0 {
        lemma_split_nonempty(s.drop_last(), sep);
    }
}

/// `c` is the UTF-8 encoding of one whitespace character: ASCII
/// whitespace, U+0085, U+00A0, U+1680, U+2000 to U+200A, U+2028, U+2029,
/// U+202F, U+205F or U+3000.
pub open spec fn is_ws_char(c: Seq<u8>) -> bool {
    ||| c.len() == 1 && is_ws(c[0])
    ||| c.len() == 2 && c[0] == 0xC2u8 && (c[1] == 0x85u8 || c[1] == 0xA0u8)
    ||| c.len() == 3 && c[0] == 0xE1u8 && c[1] == 0x9Au8 && c[2] == 0x80u8
    ||| c.len() == 3 && c[0] == 0xE2u8 && c[1] == 0x80u8 && ((0x80u8 <= c[2] <= 0x8Au8) || c[2]
        == 0xA8u8 || c[2] == 0xA9u8 || c[2] == 0xAFu8)
    ||| c.len() == 3 && c[0] == 0xE2u8 && c[1] == 0x81u8 && c[2] == 0x9Fu8
    ||| c.len() == 3 && c[0] == 0xE3u8 && c[1] == 0x80u8 && c[2] == 0x80u8
}

/// The length of the whitespace character that `s` starts with, or 0.
pub open spec fn lead_ws_len(s: Seq<u8>) -> int {
    if s.len() >= 1 && is_ws_char(s.subrange(0, 1)) {
        1
    } else if s.len() >= 2 && is_ws_char(s.subrange(0, 2)) {
        2
    } else if s.len() >= 3 && is_ws_char(s.subrange(0, 3)) {
        3
    } else {
        0
    }
}

/// The length of the whitespace character that `s` ends with, or 0.
pub open spec fn trail_ws_len(s: Seq<u8>) -> int {
    if s.len() >= 1 && is_ws_char(s.subrange(s.len() - 1, s.len() as int)) {
        1
    } else if s.len() >= 2 && is_ws_char(s.subrange(s.len() - 2, s.len() as int)) {
        2
    } else if s.len() >= 3 && is_ws_char(s.subrange(s.len() - 3, s.len() as int)) {
        3
    } else {
        0
    }
}

/// `s` without leading whitespace.
pub open spec fn trim_start(s: Seq<u8>) -> Seq<u8>
    decreases s.len(),
{
    if lead_ws_len(s) > 0 {
        trim_start(s.subrange(lead_ws_len(s), s.len() as int))
    } else {
        s
    }
}

/// `s` without trailing whitespace.
pub open spec fn trim_end(s: Seq<u8>) -> Seq<u8>
    decreases s.len(),
{
    if trail_ws_len(s) > 0 {
        trim_end(s.subrange(0, s.len() - trail_ws_len(s)))
    } else {
        s
    }
}

/// `s` without leading or trailing whitespace.
pub open spec fn trim(s: Seq<u8>) -> Seq<u8> {
    trim_end(trim_start(s))
}

/// `s` without any leading run of `*.` wildcard labels.
pub open spec fn strip_wildcards(s: Seq<u8>) -> Seq<u8>
    decreases s.len(),
{
    if s.len() >= 2 && s[0] == 42u8 && s[1] == 46u8 {
        strip_wildcards(s.subrange(2, s.len() as int))
    } else {
        s
    }
}

/// A certificate name made into a candidate: trimmed, wildcards stripped.
pub open spec fn clean_name(s: Seq<u8>) -> Seq<u8> {
    strip_wildcards(trim(s))
}

/// A name is kept when it ends with the domain, has no space and has a dot.
pub open spec fn accepts(name: Seq<u8>, domain: Seq<u8>) -> bool {
    &&& domain.len() <= name.len()
    &&& name.subrange(name.len() - domain.len(), name.len() as int) == domain
    &&& !name.contains(32u8)
    &&& name.contains(46u8)
}

/// The kept names of a list of pieces, in order.
pub open spec fn kept_names(pieces: Seq<Seq<u8>>, domain: Seq<u8>) -> Seq<Seq<u8>>
    decreases pieces.len(),
{
    if pieces.len() == 0 {
        Seq::empty()
    } else {
        let rest = kept_names(pieces.drop_last(), domain);
        let n = clean_name(pieces.last());
        if accepts(n, domain) {
            rest.push(n)
        } else {
            rest
        }
    }
}

/// The kept names of all entries, entry by entry, line by line.
pub open spec fn entry_names(entries: Seq<Seq<u8>>, domain: Seq<u8>) -> Seq<Seq<u8>>
    decreases entries.len(),
{
    if entries.len() == 0 {
        Seq::empty()
    } else {
        entry_names(entries.drop_last(), domain) + kept_names(split_on(entries.last(), 10u8), domain)
    }
}

/// Byte-wise lexicographic order, the order of `Vec<u8>` and `String`.
pub open spec fn lex_lt(a: Seq<u8>, b: Seq<u8>) -> bool
    decreases a.len(),
{
    if a.len() == 0 {
        b.len() > 0
    } else if b.len() == 0 {
        false
    } else if a[0] != b[0] {
        a[0] < b[0]
    } else {
        lex_lt(a.drop_first(), b.drop_first())
    }
}

/// Strictly ascending, so without repeats.
pub open spec fn ascending(s: Seq<Seq<u8>>) -> bool {
    forall|i: int, j: int| 0 <= i < j < s.len() ==> lex_lt(#[trigger] s[i], #[trigger] s[j])
}

/// `a` and `b` hold the same names.
pub open spec fn same_names(a: Seq<Seq<u8>>, b: Seq<Seq<u8>>) -> bool {
    forall|y: Seq<u8>| #![trigger a.contains(y)] #![trigger b.contains(y)] a.contains(y) <==> b.contains(y)
}

proof fn lemma_lex_irreflexive(a: Seq<u8>)
    ensures
        !lex_lt(a, a),
    decreases a.len(),
{
    if a.len() > 0 {
        lemma_lex_irreflexive(a.drop_first());
    }
}

proof fn lemma_lex_transitive(a: Seq<u8>, b: Seq<u8>, c: Seq<u8>)
    requires
        lex_lt(a, b),
        lex_lt(b, c),
    ensures
        lex_lt(a, c),
    decreases a.len(),
{
    if a.len() > 0 && b.len() > 0 && c.len() > 0 && a[0] == b[0] && b[0] == c[0] {
        lemma_lex_transitive(a.drop_first(), b.drop_first(), c.drop_first());
    }
}

proof fn lemma_lex_total(a: Seq<u8>, b: Seq<u8>)
    requires
        a != b,
    ensures
        lex_lt(a, b) || lex_lt(b, a),
    decreases a.len(),
{
    if a.len() > 0 && b.len() > 0 && a[0] == b[0] {
        if a.drop_first() == b.drop_first() {
            assert(a =~= seq![a[0]] + a.drop_first());
            assert(b =~= seq![b[0]] + b.drop_first());
        }
        lemma_lex_total(a.drop_first(), b.drop_first());
    } else if a.len() == 0 && b.len() == 0 {
        assert(a =~= b);
    }
}

proof fn lemma_push_contains(s: Seq<Seq<u8>>, n: Seq<u8>, y: Seq<u8>)
    ensures
        s.push(n).contains(y) <==> s.contains(y) || y == n,
{
    if s.contains(y) {
        let i = choose|i: int| 0 <= i < s.len() && s[i] == y;
        assert(s.push(n)[i] == y);
    }
    if y == n {
        assert(s.push(n)[s.len() as int] == n);
    }
    if s.push(n).contains(y) {
        let i = choose|i: int| 0 <= i < s.len() + 1 && s.push(n)[i] == y;
        if i < s.len() {
            assert(s[i] == y);
        }
    }
}

fn is_ws_byte(c: u8) -> (r: bool)
    ensures
        r == is_ws(c),
{
    c == 32 || (9 <= c && c <= 13)
}

/// The bounds of `trim` of `s[lo..hi]`.
fn ws_char_at(s: &Vec<u8>, p: usize, k: usize) -> (r: bool)
    requires
        1 <= k <= 3,
        p + k <= s@.len(),
    ensures
        r == is_ws_char(s@.subrange(p as int, p + k)),
{
    let ghost c = s@.subrange(p as int, p + k);
    let n = s.len();
    assert(p + k <= n);
    assert(c.len() == k);
    assert(c[0] == s@[p as int]);
    if k == 1 {
        is_ws_byte(s[p])
    } else if k == 2 {
        assert(c[1] == s@[p + 1]);
        s[p] == 0xC2 && (s[p + 1] == 0x85 || s[p + 1] == 0xA0)
    } else {
        assert(c[1] == s@[p + 1]);
        assert(c[2] == s@[p + 2]);
        let (x, y, z) = (s[p], s[p + 1], s[p + 2]);
        (x == 0xE1 && y == 0x9A && z == 0x80) || (x == 0xE2 && y == 0x80 && ((0x80 <= z && z <= 0x8A)
            || z == 0xA8 || z == 0xA9 || z == 0xAF)) || (x == 0xE2 && y == 0x81 && z == 0x9F) || (x
            == 0xE3 && y == 0x80 && z == 0x80)
    }
}

fn lead_ws(s: &Vec<u8>, a: usize, b: usize) -> (r: usize)
    requires
        a <= b <= s@.len(),
    ensures
        r == lead_ws_len(s@.subrange(a as int, b as int)),
{
    let ghost t = s@.subrange(a as int, b as int);
    let n = b - a;
    proof {
        if n >= 1 {
            assert(t.subrange(0, 1) =~= s@.subrange(a as int, a + 1));
        }
        if n >= 2 {
            assert(t.subrange(0, 2) =~= s@.subrange(a as int, a + 2));
        }
        if n >= 3 {
            assert(t.subrange(0, 3) =~= s@.subrange(a as int, a + 3));
        }
    }
    if n >= 1 && ws_char_at(s, a, 1) {
        1
    } else if n >= 2 && ws_char_at(s, a, 2) {
        2
    } else if n >= 3 && ws_char_at(s, a, 3) {
        3
    } else {
        0
    }
}

fn trail_ws(s: &Vec<u8>, a: usize, b: usize) -> (r: usize)
    requires
        a <= b <= s@.len(),
    ensures
        r == trail_ws_len(s@.subrange(a as int, b as int)),
{
    let ghost t = s@.subrange(a as int, b as int);
    let n = b - a;
    proof {
        if n >= 1 {
            assert(t.subrange(n - 1, n as int) =~= s@.subrange(b - 1, b as int));
        }
        if n >= 2 {
            assert(t.subrange(n - 2, n as int) =~= s@.subrange(b - 2, b as int));
        }
        if n >= 3 {
            assert(t.subrange(n - 3, n as int) =~= s@.subrange(b - 3, b as int));
        }
    }
    if n >= 1 && ws_char_at(s, b - 1, 1) {
        1
    } else if n >= 2 && ws_char_at(s, b - 2, 2) {
        2
    } else if n >= 3 && ws_char_at(s, b - 3, 3) {
        3
    } else {
        0
    }
}

/// The bounds of `trim` of `s[lo..hi]`.
pub(crate) fn trim_range(s: &Vec<u8>, lo: usize, hi: usize) -> (r: (usize, usize))
    requires
        lo <= hi <= s@.len(),
    ensures
        lo <= r.0 <= r.1 <= hi,
        s@.subrange(r.0 as int, r.1 as int) == trim(s@.subrange(lo as int, hi as int)),
{
    let ghost piece = s@.subrange(lo as int, hi as int);
    let mut a = lo;
    loop
        invariant
            lo <= a <= hi <= s@.len(),
            piece == s@.subrange(lo as int, hi as int),
            trim_start(piece) == trim_start(s@.subrange(a as int, hi as int)),
        ensures
            lo <= a <= hi,
            trim_start(piece) == s@.subrange(a as int, hi as int),
        decreases hi - a,
    {
        let k = lead_ws(s, a, hi);
        if k == 0 {
            break;
        }
        assert(s@.subrange(a as int, hi as int).subrange(k as int, (hi - a) as int) =~= s@.subrange(
            a + k,
            hi as int,
        ));
        a = a + k;
    }
    let mut b = hi;
    loop
        invariant
            lo <= a <= b <= hi <= s@.len(),
            trim(piece) == trim_end(s@.subrange(a as int, b as int)),
        ensures
            lo <= a <= b <= hi,
            trim(piece) == s@.subrange(a as int, b as int),
        decreases b - a,
    {
        let k = trail_ws(s, a, b);
        if k == 0 {
            break;
        }
        assert(s@.subrange(a as int, b as int).subrange(0, (b - a - k) as int) =~= s@.subrange(
            a as int,
            b - k,
        ));
        b = b - k;
    }
    (a, b)
}

pub(crate) fn copy_range(s: &Vec<u8>, a: usize, b: usize) -> (r: Vec<u8>)
    requires
        a <= b <= s@.len(),
    ensures
        r@ == s@.subrange(a as int, b as int),
{
    let mut r: Vec<u8> = Vec::new();
    let mut k = a;
    while k < b
        invariant
            a <= k <= b <= s@.len(),
            r@ == s@.subrange(a as int, k as int),
        decreases b - k,
    {
        r.push(s[k]);
        assert(r@ =~= s@.subrange(a as int, k + 1));
        k = k + 1;
    }
    r
}

/// Returns `clean_name` of `s[lo..hi]`.
fn clean_slice(s: &Vec<u8>, lo: usize, hi: usize) -> (r: Vec<u8>)
    requires
        lo <= hi <= s@.len(),
    ensures
        r@ == clean_name(s@.subrange(lo as int, hi as int)),
{
    let ghost piece = s@.subrange(lo as int, hi as int);
    let (a, b) = trim_range(s, lo, hi);
    let mut c = a;
    while b - c >= 2 && s[c] == 42 && s[c + 1] == 46
        invariant
            a <= c <= b <= s@.len(),
            clean_name(piece) == strip_wildcards(s@.subrange(c as int, b as int)),
        decreases b - c,
    {
        assert(s@.subrange(c as int, b as int).subrange(2, (b - c) as int) =~= s@.subrange(
            c + 2,
            b as int,
        ));
        c = c + 2;
    }
    copy_range(s, c, b)
}

fn has_byte(s: &Vec<u8>, x: u8) -> (r: bool)
    ensures
        r == s@.contains(x),
{
    let mut i: usize = 0;
    while i < s.len()
        invariant
            i <= s@.len(),
            forall|j: int| 0 <= j < i ==> s@[j] != x,
        decreases s@.len() - i,
    {
        if s[i] == x {
            assert(s@[i as int] == x);
            return true;
        }
        i = i + 1;
    }
    false
}

/// Whether `name` is kept for `domain` (see `accepts`).
pub fn accepts_name(name: &Vec<u8>, domain: &Vec<u8>) -> (r: bool)
    ensures
        r == accepts(name@, domain@),
{
    if domain.len() > name.len() {
        return false;
    }
    let n = name.len();
    let off = n - domain.len();
    let mut i: usize = 0;
    while i < domain.len()
        invariant
            n == name@.len(),
            off == name@.len() - domain@.len(),
            i <= domain@.len(),
            forall|j: int| 0 <= j < i ==> name@[off + j] == domain@[j],
        decreases domain@.len() - i,
    {
        if name[off + i] != domain[i] {
            assert(name@.subrange(off as int, name@.len() as int)[i as int] != domain@[i as int]);
            return false;
        }
        i = i + 1;
    }
    assert(name@.subrange(off as int, name@.len() as int) =~= domain@);
    !has_byte(name, 32) && has_byte(name, 46)
}

fn same_bytes(a: &Vec<u8>, b: &Vec<u8>) -> (r: bool)
    ensures
        r == (a@ == b@),
{
    if a.len() != b.len() {
        return false;
    }
    let mut i: usize = 0;
    while i < a.len()
        invariant
            a@.len() == b@.len(),
            i <= a@.len(),
            forall|j: int| 0 <= j < i ==> a@[j] == b@[j],
        decreases a@.len() - i,
    {
        if a[i] != b[i] {
            return false;
        }
        i = i + 1;
    }
    assert(a@ =~= b@);
    true
}

/// The byte sequences of a list of byte vectors.
pub open spec fn views(v: Seq<Vec<u8>>) -> Seq<Seq<u8>> {
    v.map_values(|x: Vec<u8>| x@)
}

fn lex_less(a: &Vec<u8>, b: &Vec<u8>) -> (r: bool)
    ensures
        r == lex_lt(a@, b@),
{
    let mut i: usize = 0;
    assert(a@.subrange(0, a@.len() as int) =~= a@);
    assert(b@.subrange(0, b@.len() as int) =~= b@);
    while i < a.len() && i < b.len() && a[i] == b[i]
        invariant
            i <= a@.len(),
            i <= b@.len(),
            lex_lt(a@, b@) == lex_lt(a@.subrange(i as int, a@.len() as int), b@.subrange(
                i as int,
                b@.len() as int,
            )),
        decreases a@.len() - i,
    {
        assert(a@.subrange(i as int, a@.len() as int).drop_first() =~= a@.subrange(
            i + 1,
            a@.len() as int,
        ));
        assert(b@.subrange(i as int, b@.len() as int).drop_first() =~= b@.subrange(
            i + 1,
            b@.len() as int,
        ));
        i = i + 1;
    }
    if i == a.len() {
        i < b.len()
    } else if i == b.len() {
        false
    } else {
        assert(a@.subrange(i as int, a@.len() as int)[0] == a@[i as int]);
        assert(b@.subrange(i as int, b@.len() as int)[0] == b@[i as int]);
        a[i] < b[i]
    }
}

/// Inserts `x` in its place in the ascending `acc`, unless it is there.
fn insert_sorted(acc: &mut Vec<Vec<u8>>, x: Vec<u8>)
    requires
        ascending(views(old(acc)@)),
    ensures
        ascending(views(final(acc)@)),
        forall|y: Seq<u8>|
            #[trigger] views(final(acc)@).contains(y) <==> views(old(acc)@).contains(y) || y == x@,
{
    let ghost s = views(acc@);
    let mut p: usize = 0;
    while p < acc.len()
        invariant
            s == views(acc@),
            s == views(old(acc)@),
            ascending(s),
            p <= acc@.len(),
            forall|q: int| 0 <= q < p ==> lex_lt(#[trigger] s[q], x@),
        decreases acc@.len() - p,
    {
        assert(s[p as int] == acc@[p as int]@);
        if same_bytes(&acc[p], &x) {
            proof {
                assert forall|y: Seq<u8>| #[trigger] s.contains(y) <==> s.contains(y) || y == x@ by {
                    if y == x@ {
                        assert(s[p as int] == y);
                    }
                }
            }
            return;
        }
        if lex_less(&x, &acc[p]) {
            proof {
                lemma_lex_irreflexive(x@);
            }
            acc.insert(p, x);
            proof {
                let t = views(acc@);
                assert(t =~= s.insert(p as int, x@));
                assert forall|i: int, j: int| 0 <= i < j < t.len() implies lex_lt(
                    #[trigger] t[i],
                    #[trigger] t[j],
                ) by {
                    if j < p {
                        assert(t[i] == s[i] && t[j] == s[j]);
                    } else if i < p && j == p {
                    } else if i < p && j > p {
                        assert(t[j] == s[j - 1]);
                        assert(lex_lt(s[i], s[j - 1]));
                    } else if i == p {
                        assert(t[j] == s[j - 1]);
                        if j - 1 > p {
                            assert(lex_lt(s[p as int], s[j - 1]));
                            lemma_lex_transitive(x@, s[p as int], s[j - 1]);
                        }
                    } else {
                        assert(t[i] == s[i - 1] && t[j] == s[j - 1]);
                    }
                }
                assert forall|y: Seq<u8>|
                    #[trigger] t.contains(y) <==> s.contains(y) || y == x@ by {
                    if s.contains(y) {
                        let k = choose|k: int| 0 <= k < s.len() && s[k] == y;
                        if k < p {
                            assert(t[k] == y);
                        } else {
                            assert(t[k + 1] == y);
                        }
                    }
                    if y == x@ {
                        assert(t[p as int] == y);
                    }
                    if t.contains(y) {
                        let k = choose|k: int| 0 <= k < t.len() && t[k] == y;
                        if k < p {
                            assert(s[k] == y);
                        } else if k > p {
                            assert(s[k - 1] == y);
                        }
                    }
                }
            }
            return;
        }
        proof {
            lemma_lex_total(x@, s[p as int]);
        }
        p = p + 1;
    }
    acc.push(x);
    proof {
        let t = views(acc@);
        assert(t =~= s.push(x@));
        assert forall|i: int, j: int| 0 <= i < j < t.len() implies lex_lt(
            #[trigger] t[i],
            #[trigger] t[j],
        ) by {
            if j < s.len() {
                assert(t[i] == s[i] && t[j] == s[j]);
            } else {
                assert(t[i] == s[i]);
            }
        }
        assert forall|y: Seq<u8>| #[trigger] t.contains(y) <==> s.contains(y) || y == x@ by {
            lemma_push_contains(s, x@, y);
        }
    }
}

/// The candidate subdomains named by certificate-log entries: every line of
/// every entry, trimmed and stripped of `*.` wildcards, kept when it ends
/// with `domain`, has no space and has a dot; each name once, in ascending
/// byte order.
pub fn subdomains_from_entries(entries: &Vec<Vec<u8>>, domain: &Vec<u8>) -> (r: Vec<Vec<u8>>)
    ensures
        ascending(views(r@)),
        same_names(views(r@), entry_names(views(entries@), domain@)),
{
    let mut acc: Vec<Vec<u8>> = Vec::new();
    let mut k: usize = 0;
    while k < entries.len()
        invariant
            k <= entries@.len(),
            ascending(views(acc@)),
            same_names(views(acc@), entry_names(views(entries@).subrange(0, k as int), domain@)),
        decreases entries@.len() - k,
    {
        let e = &entries[k];
        let ghost done = entry_names(views(entries@).subrange(0, k as int), domain@);
        let mut start: usize = 0;
        let mut i: usize = 0;
        while i < e.len()
            invariant
                e == entries@[k as int],
                start <= i <= e@.len(),
                split_on(e@.subrange(0, i as int), 10u8).last() == e@.subrange(start as int, i as int),
                ascending(views(acc@)),
                same_names(
                    views(acc@),
                    done + kept_names(split_on(e@.subrange(0, i as int), 10u8).drop_last(), domain@),
                ),
            decreases e@.len() - i,
        {
            proof {
                assert(e@.subrange(0, i + 1).drop_last() =~= e@.subrange(0, i as int));
                lemma_split_nonempty(e@.subrange(0, i as int), 10u8);
            }
            if e[i] == 10 {
                let ghost before = split_on(e@.subrange(0, i as int), 10u8);
                let name = clean_slice(e, start, i);
                let ghost stream = done + kept_names(before.drop_last(), domain@);
                proof {
                    assert(split_on(e@.subrange(0, i + 1), 10u8).drop_last() =~= before);
                    assert(before.drop_last().push(before.last()) =~= before);
                }
                if accepts_name(&name, domain) {
                    let ghost prev = views(acc@);
                    let ghost n = name@;
                    insert_sorted(&mut acc, name);
                    proof {
                        assert(done + kept_names(before, domain@) =~= stream.push(n));
                        assert forall|y: Seq<u8>|
                            #[trigger] views(acc@).contains(y) <==> stream.push(n).contains(y) by {
                            lemma_push_contains(stream, n, y);
                            assert(prev.contains(y) <==> stream.contains(y));
                        }
                    }
                }
                start = i + 1;
                proof {
                    assert(e@.subrange(start as int, i + 1) =~= Seq::<u8>::empty());
                }
            } else {
                proof {
                    let before = split_on(e@.subrange(0, i as int), 10u8);
                    let after = split_on(e@.subrange(0, i + 1), 10u8);
                    assert(after.drop_last() =~= before.drop_last());
                    assert(e@.subrange(start as int, i + 1) =~= e@.subrange(start as int, i as int).push(
                        e@[i as int],
                    ));
                }
            }
            i = i + 1;
        }
        let ghost pieces = split_on(e@.subrange(0, i as int), 10u8);
        let name = clean_slice(e, start, i);
        proof {
            assert(e@.subrange(0, i as int) =~= e@);
            lemma_split_nonempty(e@, 10u8);
            assert(pieces.drop_last().push(pieces.last()) =~= pieces);
            assert(views(entries@).subrange(0, k + 1).drop_last() =~= views(entries@).subrange(
                0,
                k as int,
            ));
            assert(views(entries@).subrange(0, k + 1).last() == e@);
        }
        let ghost stream = done + kept_names(pieces.drop_last(), domain@);
        if accepts_name(&name, domain) {
            let ghost prev = views(acc@);
            let ghost n = name@;
            insert_sorted(&mut acc, name);
            proof {
                assert(done + kept_names(pieces, domain@) =~= stream.push(n));
                assert forall|y: Seq<u8>|
                    #[trigger] views(acc@).contains(y) <==> stream.push(n).contains(y) by {
                    lemma_push_contains(stream, n, y);
                    assert(prev.contains(y) <==> stream.contains(y));
                }
            }
        }
        k = k + 1;
    }
    assert(views(entries@).subrange(0, entries@.len() as int) =~= views(entries@));
    acc
}

/// The candidates of a wordlist: each line of `words`, trimmed, that is not
/// empty, followed by a dot and `domain`; in order.
pub open spec fn word_candidates(pieces: Seq<Seq<u8>>, domain: Seq<u8>) -> Seq<Seq<u8>>
    decreases pieces.len(),
{
    if pieces.len() == 0 {
        Seq::empty()
    } else {
        let rest = word_candidates(pieces.drop_last(), domain);
        let w = trim(pieces.last());
        if w.len() > 0 {
            rest.push(w + seq![46u8] + domain)
        } else {
            rest
        }
    }
}

/// `word.domain`, from `s[a..b]`.
fn join_domain(s: &Vec<u8>, a: usize, b: usize, domain: &Vec<u8>) -> (r: Vec<u8>)
    requires
        a <= b <= s@.len(),
    ensures
        r@ == s@.subrange(a as int, b as int) + seq![46u8] + domain@,
{
    let mut r = copy_range(s, a, b);
    r.push(46);
    let ghost head = r@;
    let mut i: usize = 0;
    while i < domain.len()
        invariant
            i <= domain@.len(),
            r@ == head + domain@.subrange(0, i as int),
        decreases domain@.len() - i,
    {
        r.push(domain[i]);
        assert(r@ =~= head + domain@.subrange(0, i + 1));
        i = i + 1;
    }
    assert(domain@.subrange(0, domain@.len() as int) =~= domain@);
    r
}

/// The candidate names of a wordlist for `domain`: one per non-blank line,
/// the trimmed word, a dot, then the domain.
pub fn candidates_from_words(words: &Vec<u8>, domain: &Vec<u8>) -> (r: Vec<Vec<u8>>)
    ensures
        views(r@) == word_candidates(split_on(words@, 10u8), domain@),
{
    let mut acc: Vec<Vec<u8>> = Vec::new();
    let mut start: usize = 0;
    let mut i: usize = 0;
    while i < words.len()
        invariant
            start <= i <= words@.len(),
            split_on(words@.subrange(0, i as int), 10u8).last() == words@.subrange(
                start as int,
                i as int,
            ),
            views(acc@) == word_candidates(
                split_on(words@.subrange(0, i as int), 10u8).drop_last(),
                domain@,
            ),
        decreases words@.len() - i,
    {
        proof {
            assert(words@.subrange(0, i + 1).drop_last() =~= words@.subrange(0, i as int));
            lemma_split_nonempty(words@.subrange(0, i as int), 10u8);
        }
        if words[i] == 10 {
            let ghost before = split_on(words@.subrange(0, i as int), 10u8);
            let ghost prev = views(acc@);
            proof {
                assert(split_on(words@.subrange(0, i + 1), 10u8).drop_last() =~= before);
                assert(before.drop_last().push(before.last()) =~= before);
            }
            let (a, b) = trim_range(words, start, i);
            if a < b {
                let name = join_domain(words, a, b, domain);
                acc.push(name);
                assert(views(acc@) =~= prev.push(name@));
            }
            start = i + 1;
            proof {
                assert(words@.subrange(start as int, i + 1) =~= Seq::<u8>::empty());
            }
        } else {
            proof {
                let before = split_on(words@.subrange(0, i as int), 10u8);
                let after = split_on(words@.subrange(0, i + 1), 10u8);
                assert(after.drop_last() =~= before.drop_last());
                assert(words@.subrange(start as int, i + 1) =~= words@.subrange(
                    start as int,
                    i as int,
                ).push(words@[i as int]));
            }
        }
        i = i + 1;
    }
    let ghost pieces = split_on(words@.subrange(0, i as int), 10u8);
    let ghost prev = views(acc@);
    proof {
        assert(words@.subrange(0, i as int) =~= words@);
        lemma_split_nonempty(words@, 10u8);
        assert(pieces.drop_last().push(pieces.last()) =~= pieces);
    }
    let (a, b) = trim_range(words, start, i);
    if a < b {
        let name = join_domain(words, a, b, domain);
        acc.push(name);
        assert(views(acc@) =~= prev.push(name@));
    }
    acc
}

/// `s` without any leading repetitions of the non-empty `p`.
pub open spec fn strip_all(s: Seq<u8>, p: Seq<u8>) -> Seq<u8>
    decreases s.len(),
{
    if p.len() > 0 && p.len() <= s.len() && s.subrange(0, p.len() as int) == p {
        strip_all(s.subrange(p.len() as int, s.len() as int), p)
    } else {
        s
    }
}

/// `http://`
pub open spec fn http_scheme() -> Seq<u8> {
    seq![104u8, 116, 116, 112, 58, 47, 47]
}

/// `https://`
pub open spec fn https_scheme() -> Seq<u8> {
    seq![104u8, 116, 116, 112, 115, 58, 47, 47]
}

/// The domain of a host name: with leading `http://` and then `https://`
/// removed, its last two dot-separated labels; a name with no dot is its
/// own domain.
pub open spec fn domain_of(host: Seq<u8>) -> Seq<u8> {
    let parts = split_on(strip_all(strip_all(host, http_scheme()), https_scheme()), 46u8);
    if parts.len() >= 2 {
        parts[parts.len() - 2] + seq![46u8] + parts[parts.len() - 1]
    } else {
        host
    }
}

fn strip_all_exec(s: &Vec<u8>, p: &Vec<u8>) -> (r: Vec<u8>)
    requires
        p@.len() > 0,
    ensures
        r@ == strip_all(s@, p@),
{
    let n = s.len();
    let m = p.len();
    let mut k: usize = 0;
    assert(s@.subrange(0, n as int) =~= s@);
    loop
        invariant
            n == s@.len(),
            m == p@.len(),
            m > 0,
            k <= n,
            strip_all(s@, p@) == strip_all(s@.subrange(k as int, n as int), p@),
        ensures
            k <= n,
            strip_all(s@, p@) == s@.subrange(k as int, n as int),
        decreases n - k,
    {
        let ghost rest = s@.subrange(k as int, n as int);
        if m > n - k {
            assert(strip_all(rest, p@) == rest);
            break;
        }
        let mut j: usize = 0;
        let mut same = true;
        while j < m
            invariant
                n == s@.len(),
                m == p@.len(),
                k + m <= n,
                j <= m,
                same == forall|q: int| 0 <= q < j ==> s@[k + q] == p@[q],
            decreases m - j,
        {
            if s[k + j] != p[j] {
                same = false;
            }
            j = j + 1;
        }
        proof {
            if same {
                assert(rest.subrange(0, m as int) =~= p@);
            } else {
                let q = choose|q: int| 0 <= q < m && s@[k + q] != p@[q];
                assert(rest.subrange(0, m as int)[q] != p@[q]);
            }
        }
        if !same {
            assert(strip_all(rest, p@) == rest);
            break;
        }
        proof {
            assert(rest.subrange(m as int, rest.len() as int) =~= s@.subrange(k + m, n as int));
        }
        k = k + m;
    }
    copy_range(s, k, n)
}

/// The pieces of `s` between occurrences of `sep`.
pub fn split_bytes(s: &Vec<u8>, sep: u8) -> (r: Vec<Vec<u8>>)
    ensures
        views(r@) == split_on(s@, sep),
{
    let mut acc: Vec<Vec<u8>> = Vec::new();
    let mut start: usize = 0;
    let mut i: usize = 0;
    while i < s.len()
        invariant
            start <= i <= s@.len(),
            split_on(s@.subrange(0, i as int), sep).last() == s@.subrange(start as int, i as int),
            views(acc@) == split_on(s@.subrange(0, i as int), sep).drop_last(),
        decreases s@.len() - i,
    {
        proof {
            assert(s@.subrange(0, i + 1).drop_last() =~= s@.subrange(0, i as int));
            lemma_split_nonempty(s@.subrange(0, i as int), sep);
        }
        if s[i] == sep {
            let ghost before = split_on(s@.subrange(0, i as int), sep);
            let ghost prev = views(acc@);
            let piece = copy_range(s, start, i);
            acc.push(piece);
            proof {
                assert(split_on(s@.subrange(0, i + 1), sep).drop_last() =~= before);
                assert(before.drop_last().push(before.last()) =~= before);
                assert(views(acc@) =~= prev.push(piece@));
            }
            start = i + 1;
            proof {
                assert(s@.subrange(start as int, i + 1) =~= Seq::<u8>::empty());
            }
        } else {
            proof {
                let before = split_on(s@.subrange(0, i as int), sep);
                let after = split_on(s@.subrange(0, i + 1), sep);
                assert(after.drop_last() =~= before.drop_last());
                assert(s@.subrange(start as int, i + 1) =~= s@.subrange(start as int, i as int).push(
                    s@[i as int],
                ));
            }
        }
        i = i + 1;
    }
    let ghost pieces = split_on(s@.subrange(0, i as int), sep);
    let ghost prev = views(acc@);
    proof {
        assert(s@.subrange(0, i as int) =~= s@);
        lemma_split_nonempty(s@, sep);
    }
    let last = copy_range(s, start, i);
    acc.push(last);
    assert(views(acc@) =~= prev.push(last@));
    assert(pieces.drop_last().push(pieces.last()) =~= pieces);
    acc
}

/// The domain of `host`, as `domain_of` says: for `cdn.example.com` it is
/// `example.com`.
pub fn extract_domain(host: &Vec<u8>) -> (r: Vec<u8>)
    ensures
        r@ == domain_of(host@),
{
    let http = vec![104u8, 116, 116, 112, 58, 47, 47];
    let https = vec![104u8, 116, 116, 112, 115, 58, 47, 47];
    assert(http@ =~= http_scheme());
    assert(https@ =~= https_scheme());
    let a = strip_all_exec(host, &http);
    let b = strip_all_exec(&a, &https);
    let parts = split_bytes(&b, 46);
    let n = parts.len();
    if n >= 2 {
        let mut r = copy_range(&parts[n - 2], 0, parts[n - 2].len());
        r.push(46);
        let ghost head = r@;
        let last = &parts[n - 1];
        let mut i: usize = 0;
        while i < last.len()
            invariant
                i <= last@.len(),
                r@ == head + last@.subrange(0, i as int),
            decreases last@.len() - i,
        {
            r.push(last[i]);
            assert(r@ =~= head + last@.subrange(0, i + 1));
            i = i + 1;
        }
        proof {
            assert(last@.subrange(0, last@.len() as int) =~= last@);
            assert(parts[n - 2]@.subrange(0, parts[n - 2]@.len() as int) =~= parts[n - 2]@);
            assert(views(parts@)[n - 2] == parts@[n - 2]@);
            assert(views(parts@)[n - 1] == parts@[n - 1]@);
        }
        r
    } else {
        copy_range(host, 0, host.len())
    }
}

} // verus!
