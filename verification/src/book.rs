use vstd::prelude::*;

verus! {

/// One codebook entry: a symbol and the bit string that encodes it.
#[derive(Debug)]
pub struct CodeEntry {
    pub symbol: u16,
    pub code: Vec<bool>,
}

/// The mathematical content of a codebook: symbol and bit sequence pairs.
pub open spec fn book_view(entries: Seq<CodeEntry>) -> Seq<(u16, Seq<bool>)> {
    entries.map_values(|e: CodeEntry| (e.symbol, e.code@))
}

/// `p` is an initial segment of `q` (equality included).
pub open spec fn is_prefix_of(p: Seq<bool>, q: Seq<bool>) -> bool {
    p.len() <= q.len() && p == q.take(p.len() as int)
}

/// A codebook a bit stream can be decoded against: every code is at least
/// one bit long, and no code is a prefix of another (nor equal to another),
/// so each code is recognisable without delimiters.
pub open spec fn codes_wf(book: Seq<(u16, Seq<bool>)>) -> bool {
    &&& forall|i: int| 0 <= i < book.len() ==> (#[trigger] book[i].1).len() >= 1
    &&& forall|i: int, j: int|
        0 <= i < book.len() && 0 <= j < book.len() && i != j ==> !is_prefix_of(
            #[trigger] book[i].1,
            #[trigger] book[j].1,
        )
}

/// Each symbol appears in at most one entry, so the codebook is a mapping.
pub open spec fn syms_unique(book: Seq<(u16, Seq<bool>)>) -> bool {
    forall|i: int, j: int|
        0 <= i < book.len() && 0 <= j < book.len() && i != j ==> (#[trigger] book[i]).0 != (
        #[trigger] book[j]).0
}

/// The symbol has an entry in the codebook.
pub open spec fn sym_in_book(book: Seq<(u16, Seq<bool>)>, s: u16) -> bool {
    exists|i: int| 0 <= i < book.len() && (#[trigger] book[i]).0 == s
}

/// The code of a symbol that has an entry. With `syms_unique` the entry is
/// unique, so this is the code.
pub open spec fn code_of(book: Seq<(u16, Seq<bool>)>, s: u16) -> Seq<bool> {
    book[choose|i: int| 0 <= i < book.len() && (#[trigger] book[i]).0 == s].1
}

/// How many entries carry the symbol `v`.
pub open spec fn sym_count(book: Seq<(u16, Seq<bool>)>, v: u16) -> int
    decreases book.len(),
{
    if book.len() == 0 {
        0
    } else {
        sym_count(book.drop_last(), v) + if book.last().0 == v {
            1int
        } else {
            0int
        }
    }
}

/// A prefix of a prefix is a prefix.
pub proof fn lemma_prefix_chain(a: Seq<bool>, b: Seq<bool>, c: Seq<bool>)
    requires
        is_prefix_of(a, b),
        is_prefix_of(b, c),
    ensures
        is_prefix_of(a, c),
{
    assert(a =~= c.take(a.len() as int));
}

/// Two initial segments of the same sequence are ordered by the prefix
/// relation.
pub proof fn lemma_prefixes_related(a: Seq<bool>, b: Seq<bool>, q: Seq<bool>)
    requires
        is_prefix_of(a, q),
        is_prefix_of(b, q),
    ensures
        a.len() <= b.len() ==> is_prefix_of(a, b),
        b.len() <= a.len() ==> is_prefix_of(b, a),
{
    if a.len() <= b.len() {
        assert(a =~= b.take(a.len() as int));
    }
    if b.len() <= a.len() {
        assert(b =~= a.take(b.len() as int));
    }
}

/// An entry's symbol is counted at least once.
pub proof fn lemma_sym_count_at_least_one(book: Seq<(u16, Seq<bool>)>, i: int, v: u16)
    requires
        0 <= i < book.len(),
        book[i].0 == v,
    ensures
        sym_count(book, v) >= 1,
    decreases book.len(),
{
    lemma_sym_count_nonneg(book.drop_last(), v);
    if i < book.len() - 1 {
        lemma_sym_count_at_least_one(book.drop_last(), i, v);
    }
}

/// Symbol counts are not negative.
pub proof fn lemma_sym_count_nonneg(book: Seq<(u16, Seq<bool>)>, v: u16)
    ensures
        sym_count(book, v) >= 0,
    decreases book.len(),
{
    if book.len() > 0 {
        lemma_sym_count_nonneg(book.drop_last(), v);
    }
}

/// Two distinct entries with the same symbol are counted at least twice.
pub proof fn lemma_sym_count_at_least_two(book: Seq<(u16, Seq<bool>)>, i: int, j: int, v: u16)
    requires
        0 <= i < j < book.len(),
        book[i].0 == v,
        book[j].0 == v,
    ensures
        sym_count(book, v) >= 2,
    decreases book.len(),
{
    if j == book.len() - 1 {
        lemma_sym_count_at_least_one(book.drop_last(), i, v);
    } else {
        lemma_sym_count_at_least_two(book.drop_last(), i, j, v);
    }
}

/// A positive count names an entry.
pub proof fn lemma_sym_count_positive_in_book(book: Seq<(u16, Seq<bool>)>, v: u16)
    requires
        sym_count(book, v) >= 1,
    ensures
        sym_in_book(book, v),
    decreases book.len(),
{
    if book.len() > 0 {
        if book.last().0 == v {
            assert(book[book.len() - 1].0 == v);
        } else {
            lemma_sym_count_positive_in_book(book.drop_last(), v);
            let i = choose|i: int|
                0 <= i < book.drop_last().len() && (#[trigger] book.drop_last()[i]).0 == v;
            assert(book[i].0 == v);
        }
    }
}

/// Symbol counts split over concatenation.
pub proof fn lemma_sym_count_concat(a: Seq<(u16, Seq<bool>)>, b: Seq<(u16, Seq<bool>)>, v: u16)
    ensures
        sym_count(a + b, v) == sym_count(a, v) + sym_count(b, v),
    decreases b.len(),
{
    if b.len() == 0 {
        assert(a + b =~= a);
    } else {
        assert((a + b).drop_last() =~= a + b.drop_last());
        lemma_sym_count_concat(a, b.drop_last(), v);
    }
}

} // verus!
