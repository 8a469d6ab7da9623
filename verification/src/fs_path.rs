//! Relative file-system paths as sequences of components (the parts between
//! `/`), compared component by component as `Path` compares them.
use vstd::prelude::*;
use crate::text_bytes::{utf8_bytes, split_spec, split_str, lemma_encode_injective, string_from_utf8, lemma_ascii_valid};
use vstd::utf8::{valid_utf8, valid_utf8_concat, encode_utf8_valid_utf8};

verus! {

broadcast use vstd::seq::group_seq_axioms;

/// The UTF-8 bytes of each component.
pub open spec fn comps_view(v: Seq<String>) -> Seq<Seq<u8>> {
    v.map_values(|s: String| utf8_bytes(s@))
}


pub proof fn lemma_comps_view_push(v: Seq<String>, s: String)
    ensures
        comps_view(v.push(s)) == comps_view(v).push(utf8_bytes(s@)),
{
    assert(comps_view(v.push(s)) =~= comps_view(v).push(utf8_bytes(s@)));
}

/// The non-empty parts, in order.
pub open spec fn nonempty_parts(parts: Seq<Seq<u8>>) -> Seq<Seq<u8>>
    decreases parts.len(),
{
    if parts.len() == 0 {
        Seq::empty()
    } else {
        let r = nonempty_parts(parts.drop_last());
        if parts.last().len() > 0 {
            r.push(parts.last())
        } else {
            r
        }
    }
}

/// The components of a `/`-separated path; empty parts are ignored.
pub open spec fn path_comps(b: Seq<u8>) -> Seq<Seq<u8>> {
    nonempty_parts(split_spec(b, 0x2f))
}

/// A path written out: its components joined by `/`.
pub open spec fn join_spec(c: Seq<Seq<u8>>) -> Seq<u8>
    decreases c.len(),
{
    if c.len() == 0 {
        Seq::empty()
    } else if c.len() == 1 {
        c[0]
    } else {
        join_spec(c.drop_last()) + seq![0x2fu8] + c.last()
    }
}

/// The components of the path written in `path`.
pub fn comps_of(path: &str) -> (r: Vec<String>)
    ensures
        comps_view(r@) == path_comps(utf8_bytes(path@)),
{
    let parts = split_str(path, 0x2f);
    let ghost sp = split_spec(utf8_bytes(path@), 0x2f);
    let mut r: Vec<String> = Vec::new();
    let mut i: usize = 0;
    while i < parts.len()
        invariant
            i <= parts@.len(),
            parts@.len() == sp.len(),
            forall|k: int| 0 <= k < parts@.len() ==> utf8_bytes((#[trigger] parts@[k])@) == sp[k],
            comps_view(r@) == nonempty_parts(sp.subrange(0, i as int)),
        decreases parts@.len() - i,
    {
        let ghost pre = sp.subrange(0, i as int + 1);
        assert(pre.drop_last() =~= sp.subrange(0, i as int));
        assert(pre.last() == sp[i as int]);
        if !parts[i].as_str().is_empty() {
            proof {
                vstd::utf8::encode_utf8_decode_utf8(parts@[i as int]@);
            }
            assert(utf8_bytes(parts@[i as int]@).len() > 0);
            r.push(parts[i].clone());
            assert(comps_view(r@) =~= nonempty_parts(pre));
        } else {
            assert(utf8_bytes(parts@[i as int]@).len() == 0);
        }
        i = i + 1;
    }
    assert(sp.subrange(0, sp.len() as int) =~= sp);
    r
}

proof fn lemma_join_valid(c: Seq<Seq<u8>>)
    requires
        forall|i: int| 0 <= i < c.len() ==> valid_utf8(#[trigger] c[i]),
    ensures
        valid_utf8(join_spec(c)),
    decreases c.len(),
{
    if c.len() == 0 {
        lemma_ascii_valid(Seq::<u8>::empty());
    } else if c.len() > 1 {
        lemma_join_valid(c.drop_last());
        lemma_ascii_valid(seq![0x2fu8]);
        valid_utf8_concat(join_spec(c.drop_last()), seq![0x2fu8]);
        valid_utf8_concat(join_spec(c.drop_last()) + seq![0x2fu8], c.last());
    }
}

/// Writes the components joined by `/`.
pub fn join_comps(c: &Vec<String>) -> (r: String)
    ensures
        utf8_bytes(r@) == join_spec(comps_view(c@)),
{
    let mut out: Vec<u8> = Vec::new();
    let mut i: usize = 0;
    while i < c.len()
        invariant
            i <= c@.len(),
            out@ == join_spec(comps_view(c@).subrange(0, i as int)),
        decreases c@.len() - i,
    {
        let ghost pre = comps_view(c@).subrange(0, i as int + 1);
        assert(pre.drop_last() =~= comps_view(c@).subrange(0, i as int));
        if i > 0 {
            out.push(0x2f);
        }
        let b = c[i].as_str().as_bytes();
        let mut k: usize = 0;
        let ghost base = out@;
        while k < b.len()
            invariant
                k <= b@.len(),
                out@ == base + b@.subrange(0, k as int),
            decreases b@.len() - k,
        {
            out.push(b[k]);
            k = k + 1;
            assert(out@ =~= base + b@.subrange(0, k as int));
        }
        assert(b@.subrange(0, b@.len() as int) =~= b@);
        i = i + 1;
        assert(out@ =~= join_spec(pre));
    }
    assert(comps_view(c@).subrange(0, c@.len() as int) =~= comps_view(c@));
    proof {
        assert forall|i: int| 0 <= i < comps_view(c@).len() implies valid_utf8(
            #[trigger] comps_view(c@)[i],
        ) by {
            encode_utf8_valid_utf8(c@[i]@);
        }
        lemma_join_valid(comps_view(c@));
    }
    string_from_utf8(out).unwrap()
}

/// Compares two strings by their bytes.
pub fn string_eq(a: &String, b: &String) -> (r: bool)
    ensures
        r == (utf8_bytes(a@) == utf8_bytes(b@)),
{
    proof {
        if utf8_bytes(a@) == utf8_bytes(b@) {
            lemma_encode_injective(a@, b@);
        }
    }
    let r = *a == *b;
    r
}

/// True when `prefix` is a component-wise prefix of `c` (`Path::starts_with`).
pub open spec fn comps_start_with(c: Seq<Seq<u8>>, prefix: Seq<Seq<u8>>) -> bool {
    prefix.len() <= c.len() && c.subrange(0, prefix.len() as int) == prefix
}

pub fn comps_starts_with(c: &Vec<String>, prefix: &Vec<String>) -> (r: bool)
    ensures
        r == comps_start_with(comps_view(c@), comps_view(prefix@)),
{
    if prefix.len() > c.len() {
        return false;
    }
    let mut i: usize = 0;
    while i < prefix.len()
        invariant
            i <= prefix@.len() <= c@.len(),
            forall|k: int| 0 <= k < i ==> comps_view(c@)[k] == comps_view(prefix@)[k],
        decreases prefix@.len() - i,
    {
        if !string_eq(&c[i], &prefix[i]) {
            assert(comps_view(c@).subrange(0, prefix@.len() as int)[i as int] != comps_view(
                prefix@,
            )[i as int]);
            return false;
        }
        i = i + 1;
    }
    assert(comps_view(c@).subrange(0, prefix@.len() as int) =~= comps_view(prefix@));
    true
}

pub fn comps_eq(a: &Vec<String>, b: &Vec<String>) -> (r: bool)
    ensures
        r == (comps_view(a@) == comps_view(b@)),
{
    if a.len() != b.len() {
        assert(comps_view(a@).len() != comps_view(b@).len());
        return false;
    }
    let r = comps_starts_with(a, b);
    assert(comps_view(a@).len() == comps_view(b@).len());
    assert(comps_view(a@).subrange(0, comps_view(b@).len() as int) =~= comps_view(a@));
    r
}

/// Byte-wise lexicographic order.
pub open spec fn bytes_lt(a: Seq<u8>, b: Seq<u8>) -> bool
    decreases a.len(),
{
    if a.len() == 0 {
        b.len() > 0
    } else if b.len() == 0 {
        false
    } else if a[0] != b[0] {
        a[0] < b[0]
    } else {
        bytes_lt(a.drop_first(), b.drop_first())
    }
}

/// Component-wise lexicographic order of paths (as `Path` orders them).
pub open spec fn comps_lt(a: Seq<Seq<u8>>, b: Seq<Seq<u8>>) -> bool
    decreases a.len(),
{
    if a.len() == 0 {
        b.len() > 0
    } else if b.len() == 0 {
        false
    } else if a[0] != b[0] {
        bytes_lt(a[0], b[0])
    } else {
        comps_lt(a.drop_first(), b.drop_first())
    }
}

pub proof fn lemma_bytes_lt_order(a: Seq<u8>, b: Seq<u8>, c: Seq<u8>)
    ensures
        !bytes_lt(a, a),
        a != b ==> (bytes_lt(a, b) || bytes_lt(b, a)),
        bytes_lt(a, b) ==> !bytes_lt(b, a),
        bytes_lt(a, b) && bytes_lt(b, c) ==> bytes_lt(a, c),
    decreases a.len(),
{
    if a.len() > 0 && b.len() > 0 && c.len() > 0 {
        lemma_bytes_lt_order(a.drop_first(), b.drop_first(), c.drop_first());
        if a[0] == b[0] && a.drop_first() == b.drop_first() {
            assert forall|i: int| 0 <= i < a.len() implies a[i] == b[i] by {
                if i > 0 {
                    assert(a[i] == a.drop_first()[i - 1]);
                    assert(b[i] == b.drop_first()[i - 1]);
                }
            }
            assert(a =~= b);
        }
    } else if a.len() > 0 && b.len() > 0 {
        lemma_bytes_lt_order(a.drop_first(), b.drop_first(), c);
        if a[0] == b[0] && a.drop_first() == b.drop_first() {
            assert forall|i: int| 0 <= i < a.len() implies a[i] == b[i] by {
                if i > 0 {
                    assert(a[i] == a.drop_first()[i - 1]);
                    assert(b[i] == b.drop_first()[i - 1]);
                }
            }
            assert(a =~= b);
        }
    } else if a.len() > 0 {
        lemma_bytes_lt_order(a.drop_first(), b, c);
    } else if b.len() == 0 {
        assert(a =~= b);
    }
}

pub proof fn lemma_comps_lt_order(a: Seq<Seq<u8>>, b: Seq<Seq<u8>>, c: Seq<Seq<u8>>)
    ensures
        !comps_lt(a, a),
        a != b ==> (comps_lt(a, b) || comps_lt(b, a)),
        comps_lt(a, b) ==> !comps_lt(b, a),
        comps_lt(a, b) && comps_lt(b, c) ==> comps_lt(a, c),
    decreases a.len(),
{
    if a.len() > 0 && b.len() > 0 && c.len() > 0 {
        lemma_comps_lt_order(a.drop_first(), b.drop_first(), c.drop_first());
        lemma_bytes_lt_order(a[0], b[0], c[0]);
        lemma_bytes_lt_order(b[0], a[0], c[0]);
        lemma_bytes_lt_order(a[0], c[0], b[0]);
        if a[0] == b[0] && a.drop_first() == b.drop_first() {
            assert forall|i: int| 0 <= i < a.len() implies a[i] == b[i] by {
                if i > 0 {
                    assert(a[i] == a.drop_first()[i - 1]);
                    assert(b[i] == b.drop_first()[i - 1]);
                }
            }
            assert(a =~= b);
        }
    } else if a.len() > 0 && b.len() > 0 {
        lemma_comps_lt_order(a.drop_first(), b.drop_first(), c);
        lemma_bytes_lt_order(a[0], b[0], a[0]);
        if a[0] == b[0] && a.drop_first() == b.drop_first() {
            assert forall|i: int| 0 <= i < a.len() implies a[i] == b[i] by {
                if i > 0 {
                    assert(a[i] == a.drop_first()[i - 1]);
                    assert(b[i] == b.drop_first()[i - 1]);
                }
            }
            assert(a =~= b);
        }
    } else if a.len() > 0 {
        lemma_comps_lt_order(a.drop_first(), b, c);
        lemma_bytes_lt_order(a[0], a[0], a[0]);
    } else if b.len() == 0 {
        assert(a =~= b);
    }
}

fn bytes_less(a: &[u8], b: &[u8]) -> (r: bool)
    ensures
        r == bytes_lt(a@, b@),
{
    let mut i: usize = 0;
    assert(a@.subrange(0, a@.len() as int) =~= a@);
    assert(b@.subrange(0, b@.len() as int) =~= b@);
    while i < a.len() && i < b.len()
        invariant
            i <= a@.len(),
            i <= b@.len(),
            a@.subrange(0, i as int) == b@.subrange(0, i as int),
            bytes_lt(a@, b@) == bytes_lt(a@.subrange(i as int, a@.len() as int), b@.subrange(
                i as int,
                b@.len() as int,
            )),
        decreases a@.len() - i,
    {
        let ghost sa = a@.subrange(i as int, a@.len() as int);
        let ghost sb = b@.subrange(i as int, b@.len() as int);
        assert(sa[0] == a@[i as int]);
        assert(sb[0] == b@[i as int]);
        if a[i] != b[i] {
            return a[i] < b[i];
        }
        assert(sa.drop_first() =~= a@.subrange(i + 1, a@.len() as int));
        assert(sb.drop_first() =~= b@.subrange(i + 1, b@.len() as int));
        i = i + 1;
        assert(a@.subrange(0, i as int) =~= b@.subrange(0, i as int));
    }
    i < b.len()
}

/// `a` orders before `b` as paths.
pub fn comps_less(a: &Vec<String>, b: &Vec<String>) -> (r: bool)
    ensures
        r == comps_lt(comps_view(a@), comps_view(b@)),
{
    let ghost va = comps_view(a@);
    let ghost vb = comps_view(b@);
    let mut i: usize = 0;
    assert(va.subrange(0, va.len() as int) =~= va);
    assert(vb.subrange(0, vb.len() as int) =~= vb);
    while i < a.len() && i < b.len()
        invariant
            va == comps_view(a@),
            vb == comps_view(b@),
            i <= a@.len(),
            i <= b@.len(),
            comps_lt(va, vb) == comps_lt(va.subrange(i as int, va.len() as int), vb.subrange(
                i as int,
                vb.len() as int,
            )),
        decreases a@.len() - i,
    {
        let ghost sa = va.subrange(i as int, va.len() as int);
        let ghost sb = vb.subrange(i as int, vb.len() as int);
        assert(sa[0] == va[i as int]);
        assert(sb[0] == vb[i as int]);
        if !string_eq(&a[i], &b[i]) {
            return bytes_less(a[i].as_str().as_bytes(), b[i].as_str().as_bytes());
        }
        assert(sa.drop_first() =~= va.subrange(i + 1, va.len() as int));
        assert(sb.drop_first() =~= vb.subrange(i + 1, vb.len() as int));
        i = i + 1;
    }
    i < b.len()
}

} // verus!
