use vstd::prelude::*;

verus! {

/// Lexicographic order on byte sequences: `a` comes strictly before `b`.
pub open spec fn lex_lt(a: Seq<u8>, b: Seq<u8>) -> bool
    decreases a.len(),
{
    if b.len() == 0 {
        false
    } else if a.len() == 0 {
        true
    } else if a[0] < b[0] {
        true
    } else if a[0] > b[0] {
        false
    } else {
        lex_lt(a.skip(1), b.skip(1))
    }
}

/// Lexicographic order is irreflexive.
pub proof fn lemma_lex_lt_irrefl(a: Seq<u8>)
    ensures
        !lex_lt(a, a),
    decreases a.len(),
{
    if a.len() > 0 {
        lemma_lex_lt_irrefl(a.skip(1));
    }
}

/// Two sequences related by the strict lexicographic order differ.
pub proof fn lemma_lex_lt_ne(a: Seq<u8>, b: Seq<u8>)
    requires
        lex_lt(a, b),
    ensures
        a != b,
{
    if a == b {
        lemma_lex_lt_irrefl(a);
    }
}

/// The lexicographic order is total: two distinct sequences are ordered one way.
pub proof fn lemma_lex_lt_total(a: Seq<u8>, b: Seq<u8>)
    ensures
        lex_lt(a, b) || lex_lt(b, a) || a == b,
    decreases a.len(),
{
    if a.len() == 0 {
        if b.len() == 0 {
            assert(a =~= b);
        }
    } else if b.len() == 0 {
    } else if a[0] == b[0] {
        lemma_lex_lt_total(a.skip(1), b.skip(1));
        if !lex_lt(a, b) && !lex_lt(b, a) {
            assert(a.skip(1) == b.skip(1));
            assert(a =~= seq![a[0]].add(a.skip(1)));
            assert(b =~= seq![b[0]].add(b.skip(1)));
        }
    }
}

/// The lexicographic order is transitive.
pub proof fn lemma_lex_lt_trans(a: Seq<u8>, b: Seq<u8>, c: Seq<u8>)
    requires
        lex_lt(a, b),
        lex_lt(b, c),
    ensures
        lex_lt(a, c),
    decreases a.len(),
{
    if a.len() > 0 && b.len() > 0 && c.len() > 0 {
        if a[0] == b[0] && b[0] == c[0] {
            lemma_lex_lt_trans(a.skip(1), b.skip(1), c.skip(1));
        }
    }
}

/// Compares two byte slices for equality.
pub fn bytes_eq(a: &[u8], b: &[u8]) -> (r: bool)
    ensures
        r == (a@ == b@),
{
    if a.len() != b.len() {
        assert(a@.len() != b@.len());
        return false;
    }
    let mut i: usize = 0;
    while i < a.len()
        invariant
            0 <= i <= a@.len(),
            a@.len() == b@.len(),
            forall|j: int| 0 <= j < i ==> a@[j] == b@[j],
        decreases a@.len() - i,
    {
        if a[i] != b[i] {
            assert(a@[i as int] != b@[i as int]);
            return false;
        }
        i += 1;
    }
    assert(a@ =~= b@);
    true
}

/// Decides the strict lexicographic order on byte slices.
pub fn bytes_lt(a: &[u8], b: &[u8]) -> (r: bool)
    ensures
        r == lex_lt(a@, b@),
{
    let mut i: usize = 0;
    assert(a@.skip(0) =~= a@);
    assert(b@.skip(0) =~= b@);
    loop
        invariant
            0 <= i <= a@.len(),
            0 <= i <= b@.len(),
            forall|j: int| 0 <= j < i ==> a@[j] == b@[j],
            lex_lt(a@, b@) == lex_lt(a@.skip(i as int), b@.skip(i as int)),
        decreases a@.len() - i,
    {
        if i == b.len() {
            assert(!lex_lt(a@.skip(i as int), b@.skip(i as int)));
            return false;
        }
        if i == a.len() {
            assert(a@.skip(i as int).len() == 0 && b@.skip(i as int).len() > 0);
            return true;
        }
        let x = a[i];
        let y = b[i];
        assert(a@.skip(i as int)[0] == a@[i as int]);
        assert(b@.skip(i as int)[0] == b@[i as int]);
        if x < y {
            return true;
        }
        if x > y {
            return false;
        }
        assert(a@.skip(i as int).len() > 0 && b@.skip(i as int).len() > 0);
        assert(lex_lt(a@.skip(i as int), b@.skip(i as int)) == lex_lt(
            a@.skip(i as int).skip(1),
            b@.skip(i as int).skip(1),
        ));
        assert(a@.skip(i as int).skip(1) =~= a@.skip(i as int + 1));
        assert(b@.skip(i as int).skip(1) =~= b@.skip(i as int + 1));
        i += 1;
    }
}

/// Big-endian bytes of a 64-bit integer: the little-endian bytes reversed.
pub open spec fn spec_u64_to_be_bytes(x: u64) -> Seq<u8> {
    vstd::bytes::spec_u64_to_le_bytes(x).reverse()
}

/// Big-endian bytes of a 32-bit integer: the little-endian bytes reversed.
pub open spec fn spec_u32_to_be_bytes(x: u32) -> Seq<u8> {
    vstd::bytes::spec_u32_to_le_bytes(x).reverse()
}

/// The big-endian encoding of a 64-bit integer is eight bytes and injective.
pub proof fn lemma_u64_be_bytes(x: u64, y: u64)
    ensures
        spec_u64_to_be_bytes(x).len() == 8,
        spec_u64_to_be_bytes(x) == spec_u64_to_be_bytes(y) ==> x == y,
{
    vstd::bytes::lemma_auto_spec_u64_to_from_le_bytes();
    if spec_u64_to_be_bytes(x) == spec_u64_to_be_bytes(y) {
        let lx = vstd::bytes::spec_u64_to_le_bytes(x);
        let ly = vstd::bytes::spec_u64_to_le_bytes(y);
        assert forall|j: int| 0 <= j < 8 implies lx[j] == ly[j] by {
            assert(lx.reverse()[7 - j] == lx[j]);
            assert(ly.reverse()[7 - j] == ly[j]);
        }
        assert(lx =~= ly);
    }
}

/// Emits the big-endian bytes of a 64-bit integer.
pub fn u64_to_be_bytes(x: u64) -> (r: Vec<u8>)
    ensures
        r@ == spec_u64_to_be_bytes(x),
        r@.len() == 8,
{
    let le = vstd::bytes::u64_to_le_bytes(x);
    proof {
        vstd::bytes::lemma_auto_spec_u64_to_from_le_bytes();
    }
    let mut r: Vec<u8> = Vec::new();
    let mut i: usize = 8;
    while i > 0
        invariant
            le@.len() == 8,
            le@ == vstd::bytes::spec_u64_to_le_bytes(x),
            0 <= i <= 8,
            r@.len() == 8 - i,
            forall|j: int| 0 <= j < r@.len() ==> r@[j] == le@[7 - j],
        decreases i,
    {
        i -= 1;
        r.push(le[i]);
    }
    assert(r@ =~= le@.reverse());
    r
}

/// Emits the big-endian bytes of a 32-bit integer.
pub fn u32_to_be_bytes(x: u32) -> (r: Vec<u8>)
    ensures
        r@ == spec_u32_to_be_bytes(x),
        r@.len() == 4,
{
    let le = vstd::bytes::u32_to_le_bytes(x);
    proof {
        vstd::bytes::lemma_auto_spec_u32_to_from_le_bytes();
    }
    let mut r: Vec<u8> = Vec::new();
    let mut i: usize = 4;
    while i > 0
        invariant
            le@.len() == 4,
            le@ == vstd::bytes::spec_u32_to_le_bytes(x),
            0 <= i <= 4,
            r@.len() == 4 - i,
            forall|j: int| 0 <= j < r@.len() ==> r@[j] == le@[3 - j],
        decreases i,
    {
        i -= 1;
        r.push(le[i]);
    }
    assert(r@ =~= le@.reverse());
    r
}

/// Reads a 32-bit integer from four big-endian bytes.
pub fn u32_from_be_bytes(s: &[u8]) -> (x: u32)
    requires
        s@.len() == 4,
    ensures
        spec_u32_to_be_bytes(x) == s@,
{
    let mut le: Vec<u8> = Vec::new();
    le.push(s[3]);
    le.push(s[2]);
    le.push(s[1]);
    le.push(s[0]);
    proof {
        vstd::bytes::lemma_auto_spec_u32_to_from_le_bytes();
    }
    let x = vstd::bytes::u32_from_le_bytes(le.as_slice());
    proof {
        assert(vstd::bytes::spec_u32_to_le_bytes(x) =~= le@);
        assert(le@.reverse() =~= s@);
    }
    x
}

/// Reads a 64-bit integer from eight big-endian bytes.
pub fn u64_from_be_bytes(s: &[u8]) -> (x: u64)
    requires
        s@.len() == 8,
    ensures
        spec_u64_to_be_bytes(x) == s@,
{
    let mut le: Vec<u8> = Vec::new();
    le.push(s[7]);
    le.push(s[6]);
    le.push(s[5]);
    le.push(s[4]);
    le.push(s[3]);
    le.push(s[2]);
    le.push(s[1]);
    le.push(s[0]);
    proof {
        vstd::bytes::lemma_auto_spec_u64_to_from_le_bytes();
    }
    let x = vstd::bytes::u64_from_le_bytes(le.as_slice());
    proof {
        assert(vstd::bytes::spec_u64_to_le_bytes(x) =~= le@);
        assert(le@.reverse() =~= s@);
    }
    x
}

/// Appends all bytes of `src` to `dst`.
pub fn extend_bytes(dst: &mut Vec<u8>, src: &[u8])
    ensures
        final(dst)@ == old(dst)@ + src@,
{
    let mut i: usize = 0;
    while i < src.len()
        invariant
            0 <= i <= src@.len(),
            dst@ == old(dst)@ + src@.take(i as int),
        decreases src@.len() - i,
    {
        dst.push(src[i]);
        assert(src@.take(i as int).push(src@[i as int]) =~= src@.take(i as int + 1));
        i += 1;
    }
    assert(src@.take(src@.len() as int) =~= src@);
}

} // verus!
