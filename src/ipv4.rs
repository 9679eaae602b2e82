//! IPv4 addresses in dotted-decimal text.
use vstd::prelude::*;

verus! {

pub open spec fn is_digit(c: u8) -> bool {
    48 <= c <= 57
}

/// The ASCII digit of `d` (below 10).
pub open spec fn digit(d: int) -> u8 {
    (48 + d) as u8
}

/// The decimal text of an octet, without leading zeros.
pub open spec fn octet_text(v: u8) -> Seq<u8> {
    if v < 10 {
        seq![digit(v as int)]
    } else if v < 100 {
        seq![digit(v as int / 10), digit(v as int % 10)]
    } else {
        seq![digit(v as int / 100), digit((v as int / 10) % 10), digit(v as int % 10)]
    }
}

/// The canonical dotted-decimal text of an address, most significant octet
/// first: `a.b.c.d`.
pub open spec fn dotted_quad(a: u32) -> Seq<u8> {
    octet_text(octet_of(a, 24)) + seq![46u8] + octet_text(octet_of(a, 16)) + seq![46u8]
        + octet_text(octet_of(a, 8)) + seq![46u8] + octet_text(octet_of(a, 0))
}

/// The octet of `a` that starts at bit `shift`.
pub open spec fn octet_of(a: u32, shift: u32) -> u8 {
    ((a >> shift) & 0xffu32) as u8
}

spec fn end1(a: u32) -> int {
    octet_text(octet_of(a, 24)).len() as int
}

spec fn end2(a: u32) -> int {
    end1(a) + 1 + octet_text(octet_of(a, 16)).len()
}

spec fn end3(a: u32) -> int {
    end2(a) + 1 + octet_text(octet_of(a, 8)).len()
}

spec fn end4(a: u32) -> int {
    end3(a) + 1 + octet_text(octet_of(a, 0)).len()
}

/// Where the parts of the text of `a` lie.
proof fn lemma_dotted_layout(b: Seq<u8>, a: u32)
    requires
        b == dotted_quad(a),
    ensures
        octet_at(b, 0, octet_of(a, 24)),
        b[end1(a)] == 46u8,
        octet_at(b, end1(a) + 1, octet_of(a, 16)),
        b[end2(a)] == 46u8,
        octet_at(b, end2(a) + 1, octet_of(a, 8)),
        b[end3(a)] == 46u8,
        octet_at(b, end3(a) + 1, octet_of(a, 0)),
        end4(a) == b.len(),
{
    let t1 = octet_text(octet_of(a, 24));
    let t2 = octet_text(octet_of(a, 16));
    let t3 = octet_text(octet_of(a, 8));
    let t4 = octet_text(octet_of(a, 0));
    let dot = seq![46u8];
    assert(b == t1 + dot + t2 + dot + t3 + dot + t4);
    assert(b.subrange(0, end1(a)) =~= t1);
    assert(b.subrange(end1(a) + 1, end2(a)) =~= t2);
    assert(b.subrange(end2(a) + 1, end3(a)) =~= t3);
    assert(b.subrange(end3(a) + 1, end4(a)) =~= t4);
    assert(b[end1(a)] == 46u8);
    assert(b[end2(a)] == 46u8);
    assert(b[end3(a)] == 46u8);
}

proof fn lemma_octets_determine(a: u32, c: u32)
    requires
        octet_of(a, 24) == octet_of(c, 24),
        octet_of(a, 16) == octet_of(c, 16),
        octet_of(a, 8) == octet_of(c, 8),
        octet_of(a, 0) == octet_of(c, 0),
    ensures
        a == c,
{
    assert((a >> 24u32) & 0xffu32 < 256 && (a >> 16u32) & 0xffu32 < 256 && (a >> 8u32) & 0xffu32 < 256
        && (a >> 0u32) & 0xffu32 < 256) by (bit_vector);
    assert((c >> 24u32) & 0xffu32 < 256 && (c >> 16u32) & 0xffu32 < 256 && (c >> 8u32) & 0xffu32 < 256
        && (c >> 0u32) & 0xffu32 < 256) by (bit_vector);
    assert(a >> 0u32 == a && c >> 0u32 == c) by (bit_vector);
    assert(a == c) by (bit_vector)
        requires
            (a >> 24u32) & 0xffu32 == (c >> 24u32) & 0xffu32,
            (a >> 16u32) & 0xffu32 == (c >> 16u32) & 0xffu32,
            (a >> 8u32) & 0xffu32 == (c >> 8u32) & 0xffu32,
            (a >> 0u32) & 0xffu32 == (c >> 0u32) & 0xffu32,
    ;
}

proof fn lemma_assemble(o1: u32, o2: u32, o3: u32, o4: u32)
    requires
        o1 < 256,
        o2 < 256,
        o3 < 256,
        o4 < 256,
    ensures
        ({
            let a = (o1 << 24u32) | (o2 << 16u32) | (o3 << 8u32) | o4;
            &&& (a >> 24u32) & 0xffu32 == o1
            &&& (a >> 16u32) & 0xffu32 == o2
            &&& (a >> 8u32) & 0xffu32 == o3
            &&& (a >> 0u32) & 0xffu32 == o4
        }),
{
    assert({
        let a = (o1 << 24u32) | (o2 << 16u32) | (o3 << 8u32) | o4;
        &&& (a >> 24u32) & 0xffu32 == o1
        &&& (a >> 16u32) & 0xffu32 == o2
        &&& (a >> 8u32) & 0xffu32 == o3
        &&& (a >> 0u32) & 0xffu32 == o4
    }) by (bit_vector)
        requires
            o1 < 256,
            o2 < 256,
            o3 < 256,
            o4 < 256,
    ;
}

/// The text of octet `v` starts at `i` in `b` and is not followed by a digit.
pub open spec fn octet_at(b: Seq<u8>, i: int, v: u8) -> bool {
    let e = i + octet_text(v).len();
    &&& 0 <= i
    &&& e <= b.len()
    &&& b.subrange(i, e) == octet_text(v)
    &&& (e == b.len() || !is_digit(b[e]))
}

proof fn lemma_octet_text_shape(v: u8)
    ensures
        1 <= octet_text(v).len() <= 3,
        forall|j: int| 0 <= j < octet_text(v).len() ==> is_digit(#[trigger] octet_text(v)[j]),
        octet_text(v).len() > 1 ==> octet_text(v)[0] != 48u8,
        octet_text(v).len() == 1 ==> v == octet_text(v)[0] - 48,
        octet_text(v).len() == 2 ==> v == 10 * (octet_text(v)[0] - 48) + (octet_text(v)[1] - 48),
        octet_text(v).len() == 3 ==> v == 100 * (octet_text(v)[0] - 48) + 10 * (octet_text(v)[1]
            - 48) + (octet_text(v)[2] - 48),
{
}

proof fn lemma_octet_unique(b: Seq<u8>, i: int, v1: u8, v2: u8)
    requires
        octet_at(b, i, v1),
        octet_at(b, i, v2),
    ensures
        v1 == v2,
{
    lemma_octet_text_shape(v1);
    lemma_octet_text_shape(v2);
    let n1 = octet_text(v1).len() as int;
    let n2 = octet_text(v2).len() as int;
    if n1 < n2 {
        assert(b.subrange(i, i + n2)[n1] == b[i + n1]);
        assert(is_digit(octet_text(v2)[n1]));
    } else if n2 < n1 {
        assert(b.subrange(i, i + n1)[n2] == b[i + n2]);
        assert(is_digit(octet_text(v1)[n2]));
    } else {
        assert(octet_text(v1) == octet_text(v2));
        assert(octet_text(v1)[0] == octet_text(v2)[0]);
        if n1 >= 2 {
            assert(octet_text(v1)[1] == octet_text(v2)[1]);
        }
        if n1 == 3 {
            assert(octet_text(v1)[2] == octet_text(v2)[2]);
        }
    }
}

/// Reads the octet at `i`: one to three digits, no leading zero, at most 255,
/// not followed by a further digit.
fn parse_octet(b: &[u8], i: usize) -> (r: Option<(u8, usize)>)
    requires
        i <= b@.len(),
    ensures
        r matches Some((v, e)) ==> e == i + octet_text(v).len() && octet_at(b@, i as int, v),
        r is None ==> forall|v: u8| !#[trigger] octet_at(b@, i as int, v),
{
    let n = b.len();
    if i >= n || !(48 <= b[i] && b[i] <= 57) {
        proof {
            assert forall|v: u8| !#[trigger] octet_at(b@, i as int, v) by {
                lemma_octet_text_shape(v);
                if octet_at(b@, i as int, v) {
                    assert(b@.subrange(i as int, i + octet_text(v).len())[0] == b@[i as int]);
                }
            }
        }
        return None;
    }
    let d0 = b[i] - 48;
    if i + 1 >= n || !(48 <= b[i + 1] && b[i + 1] <= 57) {
        let r = (d0, i + 1);
        proof {
            assert(octet_text(d0) =~= seq![b@[i as int]]);
            assert(b@.subrange(i as int, i + 1) =~= octet_text(d0));
        }
        return Some(r);
    }
    let d1 = b[i + 1] - 48;
    if d0 == 0 {
        proof {
            assert forall|v: u8| !#[trigger] octet_at(b@, i as int, v) by {
                lemma_octet_text_shape(v);
                if octet_at(b@, i as int, v) {
                    let t = octet_text(v);
                    assert(b@.subrange(i as int, i + t.len())[0] == b@[i as int]);
                    if t.len() == 1 {
                        assert(!is_digit(b@[i + 1]));
                    }
                }
            }
        }
        return None;
    }
    if i + 2 >= n || !(48 <= b[i + 2] && b[i + 2] <= 57) {
        let v: u8 = d0 * 10 + d1;
        let r = (v, i + 2);
        proof {
            assert(octet_text(v) =~= seq![b@[i as int], b@[i + 1]]);
            assert(b@.subrange(i as int, i + 2) =~= octet_text(v));
        }
        return Some(r);
    }
    let d2 = b[i + 2] - 48;
    if i + 3 < n && 48 <= b[i + 3] && b[i + 3] <= 57 {
        proof {
            assert forall|v: u8| !#[trigger] octet_at(b@, i as int, v) by {
                lemma_octet_text_shape(v);
                if octet_at(b@, i as int, v) {
                    let t = octet_text(v);
                    let e = i + t.len();
                    assert(!is_digit(b@[e]));
                }
            }
        }
        return None;
    }
    let value: u16 = (d0 as u16) * 100 + (d1 as u16) * 10 + (d2 as u16);
    if value > 255 {
        proof {
            assert forall|v: u8| !#[trigger] octet_at(b@, i as int, v) by {
                lemma_octet_text_shape(v);
                if octet_at(b@, i as int, v) {
                    let t = octet_text(v);
                    let e = i + t.len();
                    if t.len() < 3 {
                        assert(!is_digit(b@[e]));
                    } else {
                        assert(b@.subrange(i as int, e)[0] == b@[i as int]);
                        assert(b@.subrange(i as int, e)[1] == b@[i + 1]);
                        assert(b@.subrange(i as int, e)[2] == b@[i + 2]);
                    }
                }
            }
        }
        return None;
    }
    let v = value as u8;
    let r = (v, i + 3);
    proof {
        assert(octet_text(v) =~= seq![b@[i as int], b@[i + 1], b@[i + 2]]);
        assert(b@.subrange(i as int, i + 3) =~= octet_text(v));
    }
    Some(r)
}

/// Reads an IPv4 address in canonical dotted-decimal text (four octets of
/// one to three digits, no leading zeros, each at most 255): `Some(a)`
/// exactly when `b` is the text of `a`, which is then the only such address.
pub fn parse_ipv4(b: &[u8]) -> (r: Option<u32>)
    ensures
        r matches Some(a) ==> b@ == dotted_quad(a) && forall|c: u32|
            b@ == #[trigger] dotted_quad(c) ==> c == a,
        r is None ==> forall|c: u32| b@ != #[trigger] dotted_quad(c),
{
    let n = b.len();
    let (o1, e1) = match parse_octet(b, 0) {
        Some(p) => p,
        None => {
            proof {
                assert forall|c: u32| b@ != #[trigger] dotted_quad(c) by {
                    if b@ == dotted_quad(c) {
                        lemma_dotted_layout(b@, c);
                    }
                }
            }
            return None;
        },
    };
    if e1 >= n || b[e1] != 46 {
        proof {
            assert forall|c: u32| b@ != #[trigger] dotted_quad(c) by {
                if b@ == dotted_quad(c) {
                    lemma_dotted_layout(b@, c);
                    lemma_octet_unique(b@, 0, o1, octet_of(c, 24));
                }
            }
        }
        return None;
    }
    let (o2, e2) = match parse_octet(b, e1 + 1) {
        Some(p) => p,
        None => {
            proof {
                assert forall|c: u32| b@ != #[trigger] dotted_quad(c) by {
                    if b@ == dotted_quad(c) {
                        lemma_dotted_layout(b@, c);
                        lemma_octet_unique(b@, 0, o1, octet_of(c, 24));
                    }
                }
            }
            return None;
        },
    };
    if e2 >= n || b[e2] != 46 {
        proof {
            assert forall|c: u32| b@ != #[trigger] dotted_quad(c) by {
                if b@ == dotted_quad(c) {
                    lemma_dotted_layout(b@, c);
                    lemma_octet_unique(b@, 0, o1, octet_of(c, 24));
                    lemma_octet_unique(b@, e1 + 1, o2, octet_of(c, 16));
                }
            }
        }
        return None;
    }
    let (o3, e3) = match parse_octet(b, e2 + 1) {
        Some(p) => p,
        None => {
            proof {
                assert forall|c: u32| b@ != #[trigger] dotted_quad(c) by {
                    if b@ == dotted_quad(c) {
                        lemma_dotted_layout(b@, c);
                        lemma_octet_unique(b@, 0, o1, octet_of(c, 24));
                        lemma_octet_unique(b@, e1 + 1, o2, octet_of(c, 16));
                    }
                }
            }
            return None;
        },
    };
    if e3 >= n || b[e3] != 46 {
        proof {
            assert forall|c: u32| b@ != #[trigger] dotted_quad(c) by {
                if b@ == dotted_quad(c) {
                    lemma_dotted_layout(b@, c);
                    lemma_octet_unique(b@, 0, o1, octet_of(c, 24));
                    lemma_octet_unique(b@, e1 + 1, o2, octet_of(c, 16));
                    lemma_octet_unique(b@, e2 + 1, o3, octet_of(c, 8));
                }
            }
        }
        return None;
    }
    let (o4, e4) = match parse_octet(b, e3 + 1) {
        Some(p) => p,
        None => {
            proof {
                assert forall|c: u32| b@ != #[trigger] dotted_quad(c) by {
                    if b@ == dotted_quad(c) {
                        lemma_dotted_layout(b@, c);
                        lemma_octet_unique(b@, 0, o1, octet_of(c, 24));
                        lemma_octet_unique(b@, e1 + 1, o2, octet_of(c, 16));
                        lemma_octet_unique(b@, e2 + 1, o3, octet_of(c, 8));
                    }
                }
            }
            return None;
        },
    };
    if e4 != n {
        proof {
            assert forall|c: u32| b@ != #[trigger] dotted_quad(c) by {
                if b@ == dotted_quad(c) {
                    lemma_dotted_layout(b@, c);
                    lemma_octet_unique(b@, 0, o1, octet_of(c, 24));
                    lemma_octet_unique(b@, e1 + 1, o2, octet_of(c, 16));
                    lemma_octet_unique(b@, e2 + 1, o3, octet_of(c, 8));
                    lemma_octet_unique(b@, e3 + 1, o4, octet_of(c, 0));
                }
            }
        }
        return None;
    }
    let a: u32 = ((o1 as u32) << 24u32) | ((o2 as u32) << 16u32) | ((o3 as u32) << 8u32) | (o4 as u32);
    proof {
        lemma_assemble(o1 as u32, o2 as u32, o3 as u32, o4 as u32);
        assert(octet_of(a, 24) == o1 && octet_of(a, 16) == o2 && octet_of(a, 8) == o3 && octet_of(
            a,
            0,
        ) == o4);
        let t1 = octet_text(o1);
        let t2 = octet_text(o2);
        let t3 = octet_text(o3);
        let t4 = octet_text(o4);
        assert(b@ =~= b@.subrange(0, e1 as int) + b@.subrange(e1 as int, e1 + 1) + b@.subrange(
            e1 + 1,
            e2 as int,
        ) + b@.subrange(e2 as int, e2 + 1) + b@.subrange(e2 + 1, e3 as int) + b@.subrange(
            e3 as int,
            e3 + 1,
        ) + b@.subrange(e3 + 1, n as int));
        assert(b@.subrange(e1 as int, e1 + 1) =~= seq![46u8]);
        assert(b@.subrange(e2 as int, e2 + 1) =~= seq![46u8]);
        assert(b@.subrange(e3 as int, e3 + 1) =~= seq![46u8]);
        assert(b@ == dotted_quad(a));
        assert forall|c: u32| b@ == #[trigger] dotted_quad(c) implies c == a by {
            lemma_dotted_layout(b@, c);
            lemma_octet_unique(b@, 0, o1, octet_of(c, 24));
            lemma_octet_unique(b@, e1 + 1, o2, octet_of(c, 16));
            lemma_octet_unique(b@, e2 + 1, o3, octet_of(c, 8));
            lemma_octet_unique(b@, e3 + 1, o4, octet_of(c, 0));
            lemma_octets_determine(a, c);
        }
    }
    Some(a)
}

} // verus!
