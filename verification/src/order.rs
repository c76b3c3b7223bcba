//! Byte-lexicographic ordering of fixed-width address records, and the view
//! of a flat record file as a sequence of 20-byte addresses.
use vstd::prelude::*;

verus! {

/// Three-way byte-lexicographic comparison: negative when `a` sorts before
/// `b`, zero when they are equal, positive when `a` sorts after `b`. A
/// proper prefix sorts before its extension.
pub open spec fn lex_cmp(a: Seq<u8>, b: Seq<u8>) -> int
    decreases a.len(),
{
    if a.len() == 0 && b.len() == 0 {
        0
    } else if a.len() == 0 {
        -1
    } else if b.len() == 0 {
        1
    } else if a[0] < b[0] {
        -1
    } else if a[0] > b[0] {
        1
    } else {
        lex_cmp(a.skip(1), b.skip(1))
    }
}

/// Comparison of a sequence with itself yields zero.
pub proof fn lemma_lex_refl(a: Seq<u8>)
    ensures
        lex_cmp(a, a) == 0,
    decreases a.len(),
{
    if a.len() > 0 {
        lemma_lex_refl(a.skip(1));
    }
}

/// Sequences that compare as equal are equal.
pub proof fn lemma_lex_eq(a: Seq<u8>, b: Seq<u8>)
    requires
        lex_cmp(a, b) == 0,
    ensures
        a == b,
    decreases a.len(),
{
    if a.len() == 0 && b.len() == 0 {
        assert(a =~= b);
    } else {
        lemma_lex_eq(a.skip(1), b.skip(1));
        assert(a =~= seq![a[0]] + a.skip(1));
        assert(b =~= seq![b[0]] + b.skip(1));
    }
}

/// Swapping the operands negates the comparison.
pub proof fn lemma_lex_antisym(a: Seq<u8>, b: Seq<u8>)
    ensures
        lex_cmp(b, a) == -lex_cmp(a, b),
    decreases a.len(),
{
    if a.len() > 0 && b.len() > 0 {
        lemma_lex_antisym(a.skip(1), b.skip(1));
    }
}

/// The strict order is transitive.
pub proof fn lemma_lex_trans(a: Seq<u8>, b: Seq<u8>, c: Seq<u8>)
    requires
        lex_cmp(a, b) < 0,
        lex_cmp(b, c) < 0,
    ensures
        lex_cmp(a, c) < 0,
    decreases a.len(),
{
    if a.len() > 0 && b.len() > 0 && c.len() > 0 {
        if a[0] == b[0] && b[0] == c[0] {
            lemma_lex_trans(a.skip(1), b.skip(1), c.skip(1));
        }
    }
}

/// The address record at index `i` of a flat file of 20-byte records.
pub open spec fn addr_at(bytes: Seq<u8>, i: int) -> Seq<u8> {
    bytes.subrange(20 * i, 20 * i + 20)
}

/// The number of whole 20-byte records in a flat file.
pub open spec fn addr_count(bytes: Seq<u8>) -> int {
    bytes.len() as int / 20
}

/// The record file invariant: records are strictly ascending, which also
/// rules out duplicates.
pub open spec fn sorted_addresses(bytes: Seq<u8>) -> bool {
    forall|i: int, j: int| 0 <= i < j < addr_count(bytes) ==> lex_cmp(
        #[trigger] addr_at(bytes, i),
        #[trigger] addr_at(bytes, j),
    ) < 0
}

/// In a sorted record file, distinct indices hold distinct records.
pub proof fn lemma_sorted_distinct(bytes: Seq<u8>, i: int, j: int)
    requires
        sorted_addresses(bytes),
        0 <= i < addr_count(bytes),
        0 <= j < addr_count(bytes),
        i != j,
    ensures
        addr_at(bytes, i) != addr_at(bytes, j),
{
    if i < j {
        if addr_at(bytes, i) == addr_at(bytes, j) {
            lemma_lex_refl(addr_at(bytes, i));
        }
    } else {
        if addr_at(bytes, i) == addr_at(bytes, j) {
            lemma_lex_refl(addr_at(bytes, i));
        }
    }
}

/// Compares two 20-byte records byte for byte.
pub fn compare_record(a: &[u8], b: &[u8; 20]) -> (o: i8)
    requires
        a@.len() == 20,
    ensures
        o as int == lex_cmp(a@, b@),
        -1 <= o as int <= 1,
{
    let mut i: usize = 0;
    proof {
        assert(a@.skip(0) =~= a@);
        assert(b@.skip(0) =~= b@);
    }
    while i < 20
        invariant
            i <= 20,
            a@.len() == 20,
            b@.len() == 20,
            lex_cmp(a@, b@) == lex_cmp(a@.skip(i as int), b@.skip(i as int)),
        decreases 20 - i,
    {
        let x = a[i];
        let y = b[i];
        proof {
            assert(a@.skip(i as int)[0] == a@[i as int]);
            assert(b@.skip(i as int)[0] == b@[i as int]);
            assert(a@.skip(i as int).skip(1) =~= a@.skip(i as int + 1));
            assert(b@.skip(i as int).skip(1) =~= b@.skip(i as int + 1));
        }
        if x < y {
            return -1;
        }
        if x > y {
            return 1;
        }
        i = i + 1;
    }
    proof {
        assert(a@.skip(20).len() == 0 && b@.skip(20).len() == 0);
    }
    0
}

} // verus!
