use vstd::prelude::*;

use crate::book::book_view;
use crate::book::code_of;
use crate::book::codes_wf;
use crate::book::is_prefix_of;
use crate::book::lemma_prefixes_related;
use crate::book::sym_in_book;
use crate::book::syms_unique;
use crate::book::CodeEntry;
use crate::errors::CodecError;

verus! {

/// Decode a bit sequence against a codebook: strip one codeword at a time
/// from the front, each yielding its symbol. `None` means that at some point
/// no codeword is an initial segment of what remains — including leftover
/// bits at the end that match no codeword exactly. With a prefix-free
/// codebook the codeword stripped at each step is unique, so this is the
/// decoding.
pub open spec fn spec_decode_syms(book: Seq<(u16, Seq<bool>)>, bits: Seq<bool>) -> Option<
    Seq<u16>,
>
    decreases bits.len(),
{
    if bits.len() == 0 {
        Some(Seq::empty())
    } else if exists|x: int|
        0 <= x < book.len() && (#[trigger] book[x]).1.len() >= 1 && is_prefix_of(
            book[x].1,
            bits,
        ) {
        let x = choose|x: int|
            0 <= x < book.len() && (#[trigger] book[x]).1.len() >= 1 && is_prefix_of(
                book[x].1,
                bits,
            );
        match spec_decode_syms(book, bits.skip(book[x].1.len() as int)) {
            Some(rest) => Some(seq![book[x].0] + rest),
            None => None,
        }
    } else {
        None
    }
}

/// `o` with `pre` prepended to its contents, when it has any.
pub open spec fn opt_prepend_syms(pre: Seq<u16>, o: Option<Seq<u16>>) -> Option<Seq<u16>> {
    match o {
        Some(rest) => Some(pre + rest),
        None => None,
    }
}

/// The concatenation of the codes of a symbol sequence.
pub open spec fn concat_codes(book: Seq<(u16, Seq<bool>)>, syms: Seq<u16>) -> Seq<bool>
    decreases syms.len(),
{
    if syms.len() == 0 {
        Seq::empty()
    } else {
        concat_codes(book, syms.drop_last()) + code_of(book, syms.last())
    }
}

/// `concat_codes` taken from the front.
pub proof fn lemma_concat_codes_first(book: Seq<(u16, Seq<bool>)>, syms: Seq<u16>)
    requires
        syms.len() >= 1,
    ensures
        concat_codes(book, syms) == code_of(book, syms[0]) + concat_codes(
            book,
            syms.drop_first(),
        ),
    decreases syms.len(),
{
    if syms.len() == 1 {
        assert(syms.drop_last() =~= Seq::<u16>::empty());
        assert(syms.drop_first() =~= Seq::<u16>::empty());
        assert(concat_codes(book, syms) =~= code_of(book, syms[0]) + concat_codes(
            book,
            syms.drop_first(),
        ));
    } else {
        lemma_concat_codes_first(book, syms.drop_last());
        assert(syms.drop_last()[0] == syms[0]);
        assert(syms.drop_last().drop_first() =~= syms.drop_first().drop_last());
        assert(syms.drop_first().last() == syms.last());
        assert(concat_codes(book, syms) =~= code_of(book, syms[0]) + concat_codes(
            book,
            syms.drop_first(),
        ));
    }
}

/// Peeling one codeword off the front of a bit stream: with a prefix-free
/// codebook, a stream that starts with the code of entry `x` decodes to that
/// entry's symbol followed by the decoding of the rest.
pub proof fn lemma_decode_peel(book: Seq<(u16, Seq<bool>)>, x: int, rest: Seq<bool>)
    requires
        codes_wf(book),
        0 <= x < book.len(),
    ensures
        spec_decode_syms(book, book[x].1 + rest) == opt_prepend_syms(
            seq![book[x].0],
            spec_decode_syms(book, rest),
        ),
{
    let c = book[x].1;
    let bits = c + rest;
    assert(is_prefix_of(c, bits)) by {
        assert(c =~= bits.take(c.len() as int));
    }
    let y = choose|y: int|
        0 <= y < book.len() && (#[trigger] book[y]).1.len() >= 1 && is_prefix_of(book[y].1, bits);
    assert(0 <= y < book.len() && book[y].1.len() >= 1 && is_prefix_of(book[y].1, bits));
    if y != x {
        lemma_prefixes_related(book[y].1, c, bits);
        assert(false);
    }
    assert(bits.skip(c.len() as int) =~= rest);
}

/// Encoding then decoding a symbol sequence is the identity, provided every
/// symbol has an entry in a prefix-free codebook.
pub proof fn lemma_decode_concat(book: Seq<(u16, Seq<bool>)>, syms: Seq<u16>)
    requires
        codes_wf(book),
        syms_unique(book),
        forall|k: int| 0 <= k < syms.len() ==> sym_in_book(book, #[trigger] syms[k]),
    ensures
        spec_decode_syms(book, concat_codes(book, syms)) == Some(syms),
    decreases syms.len(),
{
    if syms.len() == 0 {
        assert(concat_codes(book, syms).len() == 0);
    } else {
        lemma_concat_codes_first(book, syms);
        assert(sym_in_book(book, syms[0]));
        let x = choose|x: int| 0 <= x < book.len() && (#[trigger] book[x]).0 == syms[0];
        assert(code_of(book, syms[0]) == book[x].1) by {
            let x0 = choose|i: int| 0 <= i < book.len() && (#[trigger] book[i]).0 == syms[0];
            assert(book[x0].0 == syms[0]);
            if x0 != x {
                assert(false);
            }
        }
        assert forall|k: int|
            0 <= k < syms.drop_first().len() implies sym_in_book(
            book,
            #[trigger] syms.drop_first()[k],
        ) by {
            assert(syms.drop_first()[k] == syms[k + 1]);
        }
        lemma_decode_concat(book, syms.drop_first());
        lemma_decode_peel(book, x, concat_codes(book, syms.drop_first()));
        assert(seq![book[x].0] + syms.drop_first() =~= syms);
    }
}

/// Concatenate the codes of `syms` in order, reading each from the codebook.
///
/// A symbol without an entry is an internal invariant violation and yields
/// `EncodeInconsistency`; `compress` proves its own symbol stream is fully
/// covered, so there it never occurs.
#[verifier::loop_isolation(false)]
pub fn encode_bits(syms: &Vec<u16>, book: &Vec<CodeEntry>) -> (r: Result<Vec<bool>, CodecError>)
    requires
        syms_unique(book_view(book@)),
    ensures
        match r {
            Ok(bits) => {
                &&& forall|k: int|
                    0 <= k < syms@.len() ==> sym_in_book(book_view(book@), #[trigger] syms@[k])
                &&& bits@ == concat_codes(book_view(book@), syms@)
            },
            Err(e) => {
                &&& e == CodecError::EncodeInconsistency
                &&& exists|k: int|
                    0 <= k < syms@.len() && !sym_in_book(book_view(book@), #[trigger] syms@[k])
            },
        },
{
    let ghost bv = book_view(book@);
    let mut bits: Vec<bool> = Vec::new();
    let mut k: usize = 0;
    while k < syms.len()
        invariant
            k <= syms@.len(),
            forall|x: int| 0 <= x < k ==> sym_in_book(bv, #[trigger] syms@[x]),
            bits@ == concat_codes(bv, syms@.take(k as int)),
        decreases syms@.len() - k,
    {
        let s = syms[k];
        // Scan the codebook for the entry of `s`.
        let mut j: usize = 0;
        let mut found: bool = false;
        while j < book.len() && !found
            invariant
                j <= book@.len(),
                !found ==> forall|x: int| 0 <= x < j ==> (#[trigger] bv[x]).0 != s,
                found ==> j >= 1 && j - 1 < book@.len() && bv[j - 1].0 == s,
            decreases book@.len() - j + (if found {
                0int
            } else {
                1int
            }),
        {
            if book[j].symbol == s {
                found = true;
            }
            j += 1;
        }
        if !found {
            proof {
                assert(!sym_in_book(bv, syms@[k as int]));
            }
            return Err(CodecError::EncodeInconsistency);
        }
        let e_idx = j - 1;
        let ghost prev = bits@;
        // Append the code of `s`.
        let mut x: usize = 0;
        while x < book[e_idx].code.len()
            invariant
                e_idx < book@.len(),
                x <= bv[e_idx as int].1.len(),
                bits@ == prev + bv[e_idx as int].1.take(x as int),
            decreases bv[e_idx as int].1.len() - x,
        {
            let b = book[e_idx].code[x];
            proof {
                assert((prev + bv[e_idx as int].1.take(x as int)).push(b) =~= prev + bv[
                    e_idx as int].1.take(x + 1));
            }
            bits.push(b);
            x += 1;
        }
        proof {
            assert(bv[e_idx as int].1.take(bv[e_idx as int].1.len() as int) =~= bv[
                e_idx as int].1);
            assert(syms@.take(k + 1).drop_last() =~= syms@.take(k as int));
            assert(syms@.take(k + 1).last() == syms@[k as int]);
            // The scanned entry is the entry `code_of` names.
            let x0 = choose|i: int| 0 <= i < bv.len() && (#[trigger] bv[i]).0 == s;
            assert(bv[e_idx as int].0 == s);
            if x0 != e_idx as int {
                assert(false);
            }
        }
        k += 1;
    }
    proof {
        assert(syms@.take(syms@.len() as int) =~= syms@);
    }
    Ok(bits)
}

/// The decode automaton built from the codebook once, so that decoding walks
/// one trie edge per input bit instead of re-scanning the codebook.
pub enum Trie {
    /// No codeword passes through here.
    Vacant,
    /// A codeword ends here.
    Leaf(u16),
    /// Codewords continue: left on a 0 bit, right on a 1 bit.
    Node(Box<Trie>, Box<Trie>),
}

/// The subtree reached by following `path` from `t`; `Vacant` when the path
/// leaves the trie.
pub open spec fn trie_sub(t: Trie, path: Seq<bool>) -> Trie
    decreases path.len(),
{
    if path.len() == 0 {
        t
    } else {
        match t {
            Trie::Node(z, o) => trie_sub(
                if path[0] {
                    *o
                } else {
                    *z
                },
                path.drop_first(),
            ),
            _ => Trie::Vacant,
        }
    }
}

/// `path` is a codeword of the trie, ending in a leaf that carries `s`.
pub open spec fn trie_code(t: Trie, path: Seq<bool>, s: u16) -> bool {
    trie_sub(t, path) == Trie::Leaf(s)
}

/// One of the two is an initial segment of the other.
pub open spec fn prefix_related(a: Seq<bool>, b: Seq<bool>) -> bool {
    is_prefix_of(a, b) || is_prefix_of(b, a)
}

/// The codebook has an entry mapping `s` to `p`.
pub open spec fn book_has(book: Seq<(u16, Seq<bool>)>, p: Seq<bool>, s: u16) -> bool {
    exists|x: int| 0 <= x < book.len() && (#[trigger] book[x]).0 == s && book[x].1 == p
}

/// Some codeword passes through this subtree.
pub open spec fn nonvacant(t: Trie) -> bool
    decreases t,
{
    match t {
        Trie::Vacant => false,
        Trie::Leaf(_) => true,
        Trie::Node(z, o) => nonvacant(*z) || nonvacant(*o),
    }
}

/// No dead branches: every internal node leads to at least one leaf. Tries
/// built by insertion keep this shape, and it is what lets a failed insert
/// name the codeword it collided with.
pub open spec fn trie_wf(t: Trie) -> bool
    decreases t,
{
    match t {
        Trie::Node(z, o) => (nonvacant(*z) || nonvacant(*o)) && trie_wf(*z) && trie_wf(*o),
        _ => true,
    }
}

/// Every path out of a vacant trie stays vacant.
pub proof fn lemma_vacant_sub(p: Seq<bool>)
    ensures
        trie_sub(Trie::Vacant, p) == Trie::Vacant,
{
    if p.len() == 0 {
    } else {
    }
}

/// Following a concatenated path is following its parts in turn.
pub proof fn lemma_trie_sub_concat(t: Trie, a: Seq<bool>, b: Seq<bool>)
    ensures
        trie_sub(t, a + b) == trie_sub(trie_sub(t, a), b),
    decreases a.len(),
{
    if a.len() == 0 {
        assert(a + b =~= b);
    } else {
        assert((a + b)[0] == a[0]);
        assert((a + b).drop_first() =~= a.drop_first() + b);
        match t {
            Trie::Node(z, o) => {
                lemma_trie_sub_concat(
                    if a[0] {
                        *o
                    } else {
                        *z
                    },
                    a.drop_first(),
                    b,
                );
            },
            _ => {
                lemma_vacant_sub(b);
            },
        }
    }
}

/// A subtree some codeword passes through contains a codeword.
pub proof fn lemma_nonvacant_has_code(t: Trie)
    requires
        nonvacant(t),
    ensures
        exists|p: Seq<bool>, s: u16| trie_code(t, p, s),
    decreases t,
{
    match t {
        Trie::Vacant => {},
        Trie::Leaf(s) => {
            assert(trie_code(t, Seq::empty(), s));
        },
        Trie::Node(z, o) => {
            if nonvacant(*z) {
                lemma_nonvacant_has_code(*z);
                let (p, s) = choose|p: Seq<bool>, s: u16| trie_code(*z, p, s);
                assert((seq![false] + p)[0] == false);
                assert((seq![false] + p).drop_first() =~= p);
                assert(trie_code(t, seq![false] + p, s));
            } else {
                lemma_nonvacant_has_code(*o);
                let (p, s) = choose|p: Seq<bool>, s: u16| trie_code(*o, p, s);
                assert((seq![true] + p)[0] == true);
                assert((seq![true] + p).drop_first() =~= p);
                assert(trie_code(t, seq![true] + p, s));
            }
        },
    }
}

/// Putting the same bit in front of two sequences keeps their prefix
/// relation, in both directions.
pub proof fn lemma_prefix_cons(x: bool, a: Seq<bool>, b: Seq<bool>)
    ensures
        is_prefix_of(a, b) <==> is_prefix_of(seq![x] + a, seq![x] + b),
{
    if is_prefix_of(a, b) {
        assert(seq![x] + a =~= (seq![x] + b).take(a.len() as int + 1));
    }
    if is_prefix_of(seq![x] + a, seq![x] + b) {
        assert(a =~= b.take(a.len() as int)) by {
            assert forall|i: int| 0 <= i < a.len() implies a[i] == b[i] by {
                assert((seq![x] + a)[i + 1] == (seq![x] + b).take(a.len() as int + 1)[i + 1]);
            }
        }
    }
}

/// Insert the suffix of `code` starting at `i` into the trie, to end in a
/// leaf carrying `sym`. Fails exactly when the trie already holds a codeword
/// that is a prefix of the suffix or has it as a prefix — the two ways a
/// codebook fails to be prefix-free.
#[verifier::rlimit(60)]
fn trie_insert(t: Trie, code: &Vec<bool>, i: usize, sym: u16) -> (r: Result<Trie, CodecError>)
    requires
        i <= code@.len(),
        trie_wf(t),
    ensures
        match r {
            Ok(t2) => {
                &&& (forall|p: Seq<bool>, s2: u16|
                    #![trigger trie_code(t2, p, s2)]
                    trie_code(t2, p, s2) <==> (trie_code(t, p, s2) || (p == code@.skip(i as int)
                        && s2 == sym)))
                &&& (forall|p: Seq<bool>, s2: u16|
                    trie_code(t, p, s2) ==> !prefix_related(p, code@.skip(i as int)))
                &&& trie_wf(t2)
                &&& nonvacant(t2)
            },
            Err(e) => {
                &&& e == CodecError::CorruptStream
                &&& exists|p: Seq<bool>, s2: u16|
                    trie_code(t, p, s2) && prefix_related(p, code@.skip(i as int))
            },
        },
    decreases code@.len() - i,
{
    let ghost suffix = code@.skip(i as int);
    if i == code.len() {
        proof {
            assert(suffix =~= Seq::<bool>::empty());
        }
        match t {
            Trie::Vacant => {
                let t2 = Trie::Leaf(sym);
                proof {
                    assert forall|p: Seq<bool>, s2: u16|
                        #![trigger trie_code(t2, p, s2)]
                        trie_code(t2, p, s2) <==> (trie_code(t, p, s2) || (p == suffix && s2
                            == sym)) by {
                        lemma_vacant_sub(p);
                        if p.len() == 0 {
                            assert(trie_sub(t2, p) == t2);
                            assert(p =~= suffix);
                        } else {
                            assert(trie_sub(t2, p) == Trie::Vacant);
                            assert(p != suffix);
                        }
                    }
                    assert forall|p: Seq<bool>, s2: u16| trie_code(t, p, s2) implies !prefix_related(
                        p,
                        suffix,
                    ) by {
                        lemma_vacant_sub(p);
                    }
                }
                Ok(t2)
            },
            Trie::Leaf(s0) => {
                proof {
                    assert(trie_sub(t, Seq::empty()) == t);
                    assert(trie_code(t, Seq::empty(), s0));
                    assert(is_prefix_of(Seq::empty(), suffix)) by {
                        assert(Seq::<bool>::empty() =~= suffix.take(0));
                    }
                }
                Err(CodecError::CorruptStream)
            },
            Trie::Node(_, _) => {
                proof {
                    lemma_nonvacant_has_code(t);
                    let (p, s) = choose|p: Seq<bool>, s: u16| trie_code(t, p, s);
                    assert(is_prefix_of(Seq::empty(), p)) by {
                        assert(Seq::<bool>::empty() =~= p.take(0));
                    }
                    assert(trie_code(t, p, s) && prefix_related(suffix, p));
                }
                Err(CodecError::CorruptStream)
            },
        }
    } else {
        let b = code[i];
        proof {
            assert(suffix[0] == b);
            assert(suffix.drop_first() =~= code@.skip(i + 1));
            assert(suffix =~= seq![b] + code@.skip(i + 1));
        }
        match t {
            Trie::Leaf(s0) => {
                proof {
                    assert(trie_sub(t, Seq::empty()) == t);
                    assert(trie_code(t, Seq::empty(), s0));
                    assert(is_prefix_of(Seq::empty(), suffix)) by {
                        assert(Seq::<bool>::empty() =~= suffix.take(0));
                    }
                }
                Err(CodecError::CorruptStream)
            },
            Trie::Vacant => {
                let child = match trie_insert(Trie::Vacant, code, i + 1, sym) {
                    Ok(c) => c,
                    Err(_) => {
                        proof {
                            let (p, s2) = choose|p: Seq<bool>, s2: u16|
                                trie_code(Trie::Vacant, p, s2) && prefix_related(
                                    p,
                                    code@.skip(i + 1),
                                );
                            lemma_vacant_sub(p);
                            assert(false);
                        }
                        unreached()
                    },
                };
                let t2 = if b {
                    Trie::Node(Box::new(Trie::Vacant), Box::new(child))
                } else {
                    Trie::Node(Box::new(child), Box::new(Trie::Vacant))
                };
                proof {
                    assert forall|p: Seq<bool>, s2: u16|
                        #![trigger trie_code(t2, p, s2)]
                        trie_code(t2, p, s2) <==> (trie_code(t, p, s2) || (p == suffix && s2
                            == sym)) by {
                        lemma_vacant_sub(p);
                        if p.len() == 0 {
                            assert(trie_sub(t2, p) == t2);
                        } else {
                            let p1 = p.drop_first();
                            assert(p =~= seq![p[0]] + p1);
                            if p[0] == b {
                                assert(trie_sub(t2, p) == trie_sub(child, p1));
                                assert(trie_code(child, p1, s2) <==> (trie_code(
                                    Trie::Vacant,
                                    p1,
                                    s2,
                                ) || (p1 == code@.skip(i + 1) && s2 == sym)));
                                lemma_vacant_sub(p1);
                                if p1 == code@.skip(i + 1) && s2 == sym {
                                    assert(p =~= suffix);
                                }
                                if p == suffix {
                                    assert(p1 =~= code@.skip(i + 1));
                                }
                            } else {
                                assert(trie_sub(t2, p) == trie_sub(Trie::Vacant, p1));
                                lemma_vacant_sub(p1);
                                assert(p != suffix) by {
                                    assert(suffix[0] == b);
                                }
                            }
                        }
                    }
                    assert forall|p: Seq<bool>, s2: u16| trie_code(t, p, s2) implies !prefix_related(
                        p,
                        suffix,
                    ) by {
                        lemma_vacant_sub(p);
                    }
                }
                Ok(t2)
            },
            Trie::Node(z, o) => {
                let zt = *z;
                let ot = *o;
                if b {
                    match trie_insert(ot, code, i + 1, sym) {
                        Ok(o2) => {
                            let ghost og = o2;
                            let t2 = Trie::Node(Box::new(zt), Box::new(o2));
                            proof {
                                trie_insert_node_ok(t, zt, ot, og, t2, code@, i as int, sym, true);
                            }
                            Ok(t2)
                        },
                        Err(e) => {
                            proof {
                                trie_insert_node_err(t, zt, ot, code@, i as int, true);
                            }
                            Err(e)
                        },
                    }
                } else {
                    match trie_insert(zt, code, i + 1, sym) {
                        Ok(z2) => {
                            let ghost zg = z2;
                            let t2 = Trie::Node(Box::new(z2), Box::new(ot));
                            proof {
                                trie_insert_node_ok(t, ot, zt, zg, t2, code@, i as int, sym, false);
                            }
                            Ok(t2)
                        },
                        Err(e) => {
                            proof {
                                trie_insert_node_err(t, ot, zt, code@, i as int, false);
                            }
                            Err(e)
                        },
                    }
                }
            },
        }
    }
}

/// The insert ensures, lifted one node down: `t` is a node whose `b`-side
/// child was replaced by `nc`, which holds the `b`-side child's codewords
/// plus the suffix starting after bit `i`; `t2` then holds `t`'s codewords
/// plus the suffix starting at bit `i`, which begins with `b`.
proof fn trie_insert_node_ok(
    t: Trie,
    other: Trie,
    oldc: Trie,
    nc: Trie,
    t2: Trie,
    code: Seq<bool>,
    i: int,
    sym: u16,
    b: bool,
)
    requires
        0 <= i < code.len(),
        code[i] == b,
        t == if b {
            Trie::Node(Box::new(other), Box::new(oldc))
        } else {
            Trie::Node(Box::new(oldc), Box::new(other))
        },
        trie_wf(t),
        forall|p: Seq<bool>, s2: u16|
            #![trigger trie_code(nc, p, s2)]
            trie_code(nc, p, s2) <==> (trie_code(oldc, p, s2) || (p == code.skip(i + 1) && s2
                == sym)),
        forall|p: Seq<bool>, s2: u16|
            trie_code(oldc, p, s2) ==> !prefix_related(p, code.skip(i + 1)),
        trie_wf(nc),
        nonvacant(nc),
        t2 == if b {
            Trie::Node(Box::new(other), Box::new(nc))
        } else {
            Trie::Node(Box::new(nc), Box::new(other))
        },
    ensures
        forall|p: Seq<bool>, s2: u16|
            #![trigger trie_code(t2, p, s2)]
            trie_code(t2, p, s2) <==> (trie_code(t, p, s2) || (p == code.skip(i) && s2 == sym)),
        forall|p: Seq<bool>, s2: u16| trie_code(t, p, s2) ==> !prefix_related(p, code.skip(i)),
        trie_wf(t2),
        nonvacant(t2),
{
    let suffix = code.skip(i);
    assert(suffix[0] == b);
    assert(suffix.drop_first() =~= code.skip(i + 1));
    assert(suffix =~= seq![b] + code.skip(i + 1));
    assert forall|p: Seq<bool>, s2: u16|
        #![trigger trie_code(t2, p, s2)]
        trie_code(t2, p, s2) <==> (trie_code(t, p, s2) || (p == suffix && s2 == sym)) by {
        if p.len() == 0 {
            assert(trie_sub(t2, p) == t2);
            assert(trie_sub(t, p) == t);
        } else {
            let p1 = p.drop_first();
            assert(p =~= seq![p[0]] + p1);
            if p[0] == b {
                assert(trie_sub(t2, p) == trie_sub(nc, p1));
                assert(trie_sub(t, p) == trie_sub(oldc, p1));
                assert(trie_code(nc, p1, s2) <==> (trie_code(oldc, p1, s2) || (p1 == code.skip(
                    i + 1,
                ) && s2 == sym)));
                if p1 == code.skip(i + 1) && s2 == sym {
                    assert(p =~= suffix);
                }
                if p == suffix {
                    assert(p1 =~= code.skip(i + 1));
                }
            } else {
                assert(trie_sub(t2, p) == trie_sub(other, p1));
                assert(trie_sub(t, p) == trie_sub(other, p1));
                assert(p != suffix) by {
                    assert(suffix[0] == b);
                }
            }
        }
    }
    assert forall|p: Seq<bool>, s2: u16| trie_code(t, p, s2) implies !prefix_related(
        p,
        suffix,
    ) by {
        if p.len() == 0 {
            assert(trie_sub(t, p) == t);
        } else {
            let p1 = p.drop_first();
            assert(p =~= seq![p[0]] + p1);
            if p[0] == b {
                assert(trie_sub(t, p) == trie_sub(oldc, p1));
                assert(trie_code(oldc, p1, s2));
                assert(!prefix_related(p1, code.skip(i + 1)));
                lemma_prefix_cons(b, p1, code.skip(i + 1));
                lemma_prefix_cons(b, code.skip(i + 1), p1);
            } else {
                if is_prefix_of(p, suffix) {
                    assert(p[0] == suffix.take(p.len() as int)[0]);
                    assert(false);
                }
                if is_prefix_of(suffix, p) {
                    assert(suffix[0] == p.take(suffix.len() as int)[0]);
                    assert(false);
                }
            }
        }
    }
}

/// Build the decode trie of a codebook by inserting its entries in turn.
///
/// Succeeds exactly when the codebook is decodable: every code nonempty and
/// no code a prefix of another. The resulting trie holds precisely the
/// codebook's codewords.
#[verifier::loop_isolation(false)]
#[verifier::rlimit(60)]
pub fn build_trie(book: &Vec<CodeEntry>) -> (r: Result<Trie, CodecError>)
    ensures
        match r {
            Ok(t) => {
                &&& codes_wf(book_view(book@))
                &&& !(t is Leaf)
                &&& forall|p: Seq<bool>, s: u16|
                    #![trigger trie_code(t, p, s)]
                    trie_code(t, p, s) <==> book_has(book_view(book@), p, s)
            },
            Err(e) => e == CodecError::CorruptStream && !codes_wf(book_view(book@)),
        },
{
    let ghost bv = book_view(book@);
    let mut t = Trie::Vacant;
    let mut k: usize = 0;
    proof {
        assert forall|p: Seq<bool>, s: u16| !trie_code(t, p, s) by {
            lemma_vacant_sub(p);
        }
    }
    while k < book.len()
        invariant
            k <= book@.len(),
            trie_wf(t),
            forall|p: Seq<bool>, s: u16|
                #![trigger trie_code(t, p, s)]
                trie_code(t, p, s) <==> exists|x: int|
                    0 <= x < k && (#[trigger] bv[x]).0 == s && bv[x].1 == p,
            forall|x: int| 0 <= x < k ==> (#[trigger] bv[x]).1.len() >= 1,
            forall|x: int, y: int|
                0 <= x < y < k ==> !prefix_related((#[trigger] bv[x]).1, (#[trigger] bv[y]).1),
        decreases book@.len() - k,
    {
        if book[k].code.len() == 0 {
            proof {
                assert(bv[k as int].1.len() == 0);
            }
            return Err(CodecError::CorruptStream);
        }
        let t2 = match trie_insert(t, &book[k].code, 0, book[k].symbol) {
            Ok(t2) => t2,
            Err(e) => {
                proof {
                    let (p, s2) = choose|p: Seq<bool>, s2: u16|
                        trie_code(t, p, s2) && prefix_related(p, book[k as int].code@.skip(0));
                    assert(book[k as int].code@.skip(0) =~= bv[k as int].1);
                    let x = choose|x: int| 0 <= x < k && (#[trigger] bv[x]).0 == s2 && bv[x].1 == p;
                    assert(prefix_related(bv[x].1, bv[k as int].1));
                    assert(!codes_wf(bv));
                }
                return Err(CodecError::CorruptStream);
            },
        };
        let ghost told = t;
        t = t2;
        proof {
            let suffix = book[k as int].code@.skip(0);
            assert(suffix =~= bv[k as int].1);
            assert forall|p: Seq<bool>, s: u16|
                #![trigger trie_code(t, p, s)]
                trie_code(t, p, s) <==> exists|x: int|
                    0 <= x < k + 1 && (#[trigger] bv[x]).0 == s && bv[x].1 == p by {
                if trie_code(t, p, s) {
                    if trie_code(told, p, s) {
                        let x = choose|x: int|
                            0 <= x < k && (#[trigger] bv[x]).0 == s && bv[x].1 == p;
                        assert(0 <= x < k + 1 && bv[x].0 == s && bv[x].1 == p);
                    } else {
                        assert(bv[k as int].0 == s && bv[k as int].1 == p);
                    }
                }
                if exists|x: int| 0 <= x < k + 1 && (#[trigger] bv[x]).0 == s && bv[x].1 == p {
                    let x = choose|x: int|
                        0 <= x < k + 1 && (#[trigger] bv[x]).0 == s && bv[x].1 == p;
                    if x < k {
                        assert(trie_code(told, p, s));
                    }
                }
            }
            assert forall|x: int, y: int| 0 <= x < y < k + 1 implies !prefix_related(
                (#[trigger] bv[x]).1,
                (#[trigger] bv[y]).1,
            ) by {
                if y == k {
                    assert(trie_code(told, bv[x].1, bv[x].0));
                }
            }
        }
        k += 1;
    }
    proof {
        assert(codes_wf(bv)) by {
            assert forall|x: int, y: int|
                0 <= x < bv.len() && 0 <= y < bv.len() && x != y implies !is_prefix_of(
                (#[trigger] bv[x]).1,
                (#[trigger] bv[y]).1,
            ) by {
                if x < y {
                    assert(!prefix_related(bv[x].1, bv[y].1));
                } else {
                    assert(!prefix_related(bv[y].1, bv[x].1));
                }
            }
        }
        if t is Leaf {
            let s = t->Leaf_0;
            assert(trie_sub(t, Seq::empty()) == t);
            assert(trie_code(t, Seq::empty(), s));
            let x = choose|x: int|
                0 <= x < book@.len() && (#[trigger] bv[x]).0 == s && bv[x].1 == Seq::<bool>::empty();
            assert(false);
        }
    }
    Ok(t)
}

/// Decode a bit sequence against a codebook, one trie edge per bit.
///
/// Returns the unique symbol sequence whose codes concatenate to `bits`.
/// Fails with `CorruptStream` exactly when the codebook is not decodable
/// (empty or duplicated prefixes, a zero-length code) or when some prefix of
/// the remaining bits — including the leftover tail — matches no codeword.
#[verifier::loop_isolation(false)]
#[verifier::rlimit(60)]
pub fn decode_bits(bits: &Vec<bool>, book: &Vec<CodeEntry>) -> (r: Result<Vec<u16>, CodecError>)
    ensures
        match r {
            Ok(syms) => codes_wf(book_view(book@)) && spec_decode_syms(book_view(book@), bits@)
                == Some(syms@),
            Err(e) => e == CodecError::CorruptStream && (!codes_wf(book_view(book@))
                || spec_decode_syms(book_view(book@), bits@) is None),
        },
{
    let ghost bv = book_view(book@);
    let root = match build_trie(book) {
        Ok(t) => t,
        Err(e) => {
            return Err(e);
        },
    };
    let mut out: Vec<u16> = Vec::new();
    let mut cur: &Trie = &root;
    let mut i: usize = 0;
    let mut j: usize = 0;
    let ghost mut path: Seq<bool> = Seq::empty();
    proof {
        assert(bits@.skip(0) =~= bits@);
        assert(path =~= bits@.subrange(0, 0));
        if spec_decode_syms(bv, bits@) is Some {
            assert(Seq::<u16>::empty() + spec_decode_syms(bv, bits@)->Some_0 =~= spec_decode_syms(
                bv,
                bits@,
            )->Some_0);
        }
    }
    while i < bits.len()
        invariant
            i <= bits@.len(),
            j <= i,
            path == bits@.subrange(j as int, i as int),
            *cur == trie_sub(root, path),
            forall|q: Seq<bool>|
                is_prefix_of(q, path) && q.len() < path.len() ==> #[trigger] trie_sub(
                    root,
                    q,
                ) is Node,
            path.len() > 0 ==> trie_sub(root, path) is Node,
            spec_decode_syms(bv, bits@) == opt_prepend_syms(
                out@,
                spec_decode_syms(bv, bits@.skip(j as int)),
            ),
        decreases bits@.len() - i,
    {
        let b = bits[i];
        let ghost newpath = path.push(b);
        proof {
            assert(newpath =~= path + seq![b]);
            assert(newpath =~= bits@.subrange(j as int, i + 1));
            lemma_trie_sub_concat(root, path, seq![b]);
            assert(is_prefix_of(newpath, bits@.skip(j as int))) by {
                assert(newpath =~= bits@.skip(j as int).take(i + 1 - j));
            }
        }
        match cur {
            Trie::Node(z, o) => {
                let next: &Trie = if b {
                    &**o
                } else {
                    &**z
                };
                proof {
                    assert(seq![b].drop_first() =~= Seq::<bool>::empty());
                    assert(seq![b][0] == b);
                    assert(*cur is Node);
                    assert(trie_sub(*next, Seq::<bool>::empty()) == *next);
                    assert(trie_sub(trie_sub(root, path), seq![b]) == *next);
                    assert forall|q: Seq<bool>|
                        is_prefix_of(q, newpath) && q.len() < newpath.len() implies #[trigger] trie_sub(
                        root,
                        q,
                    ) is Node by {
                        if q.len() < path.len() {
                            assert(q =~= path.take(q.len() as int));
                            assert(is_prefix_of(q, path));
                        } else {
                            assert(q =~= path);
                        }
                    }
                }
                match next {
                    Trie::Leaf(s) => {
                        proof {
                            assert(trie_code(root, newpath, *s));
                            let x = choose|x: int|
                                0 <= x < bv.len() && (#[trigger] bv[x]).0 == *s && bv[x].1
                                    == newpath;
                            assert(bits@.skip(j as int) =~= newpath + bits@.skip(i + 1));
                            lemma_decode_peel(bv, x, bits@.skip(i + 1));
                            if spec_decode_syms(bv, bits@.skip(i + 1)) is Some {
                                let rest = spec_decode_syms(bv, bits@.skip(i + 1))->Some_0;
                                assert(out@ + (seq![*s] + rest) =~= out@.push(*s) + rest);
                            }
                            path = Seq::empty();
                            assert(path =~= bits@.subrange(i + 1, i + 1));
                        }
                        out.push(*s);
                        j = i + 1;
                        cur = &root;
                    },
                    Trie::Vacant => {
                        proof {
                            assert(bits@.skip(j as int).len() > 0);
                            assert forall|x: int|
                                0 <= x < bv.len() && (#[trigger] bv[x]).1.len()
                                    >= 1 implies !is_prefix_of(bv[x].1, bits@.skip(j as int)) by {
                                let c = bv[x].1;
                                if is_prefix_of(c, bits@.skip(j as int)) {
                                    assert(trie_code(root, c, bv[x].0));
                                    lemma_prefixes_related(c, newpath, bits@.skip(j as int));
                                    if c.len() < newpath.len() {
                                        assert(is_prefix_of(c, newpath));
                                        if c.len() < path.len() {
                                            assert(c =~= path.take(c.len() as int));
                                            assert(is_prefix_of(c, path));
                                        } else {
                                            assert(c =~= path);
                                        }
                                    } else if c.len() == newpath.len() {
                                        assert(c =~= newpath);
                                    } else {
                                        assert(is_prefix_of(newpath, c));
                                        lemma_trie_sub_concat(
                                            root,
                                            newpath,
                                            c.skip(newpath.len() as int),
                                        );
                                        assert(c =~= newpath + c.skip(newpath.len() as int));
                                        lemma_vacant_sub(c.skip(newpath.len() as int));
                                    }
                                }
                            }
                            assert(spec_decode_syms(bv, bits@.skip(j as int)) is None);
                        }
                        return Err(CodecError::CorruptStream);
                    },
                    Trie::Node(_, _) => {
                        proof {
                            path = newpath;
                        }
                        cur = next;
                    },
                }
            },
            _ => {
                proof {
                    assert(path.len() == 0);
                    assert(path =~= Seq::<bool>::empty());
                    assert(*cur == root);
                    assert(bits@.skip(j as int).len() > 0);
                    assert forall|x: int|
                        0 <= x < bv.len() && (#[trigger] bv[x]).1.len() >= 1 implies !is_prefix_of(
                        bv[x].1,
                        bits@.skip(j as int),
                    ) by {
                        let c = bv[x].1;
                        if is_prefix_of(c, bits@.skip(j as int)) {
                            assert(trie_code(root, c, bv[x].0));
                            lemma_vacant_sub(c);
                        }
                    }
                    assert(spec_decode_syms(bv, bits@.skip(j as int)) is None);
                }
                return Err(CodecError::CorruptStream);
            },
        }
        i += 1;
    }
    if j == bits.len() {
        proof {
            assert(bits@.skip(j as int) =~= Seq::<bool>::empty());
            assert(spec_decode_syms(bv, bits@.skip(j as int)) == Some(Seq::<u16>::empty()));
            assert(out@ + Seq::<u16>::empty() =~= out@);
        }
        Ok(out)
    } else {
        proof {
            assert(path.len() > 0);
            assert(bits@.skip(j as int) =~= path);
            assert forall|x: int|
                0 <= x < bv.len() && (#[trigger] bv[x]).1.len() >= 1 implies !is_prefix_of(
                bv[x].1,
                bits@.skip(j as int),
            ) by {
                let c = bv[x].1;
                if is_prefix_of(c, bits@.skip(j as int)) {
                    assert(trie_code(root, c, bv[x].0));
                    assert(is_prefix_of(c, path));
                    if c.len() < path.len() {
                        assert(trie_sub(root, c) is Node);
                    } else {
                        assert(c =~= path);
                    }
                }
            }
            assert(spec_decode_syms(bv, bits@.skip(j as int)) is None);
        }
        Err(CodecError::CorruptStream)
    }
}

/// Bit `k` of a byte, most significant first.
pub open spec fn bit_of(byte: u8, k: int) -> bool {
    byte & (1u8 << ((7 - k) as u8)) != 0
}

/// The eight bits of a byte, most significant first.
pub open spec fn byte_to_bits(byte: u8) -> Seq<bool> {
    Seq::new(8, |k: int| bit_of(byte, k))
}

/// The bits of a byte sequence, in order.
pub open spec fn bytes_to_bits(bytes: Seq<u8>) -> Seq<bool>
    decreases bytes.len(),
{
    if bytes.len() == 0 {
        Seq::empty()
    } else {
        bytes_to_bits(bytes.drop_last()) + byte_to_bits(bytes.last())
    }
}

/// Eight bits per byte.
pub proof fn lemma_bytes_to_bits_len(bytes: Seq<u8>)
    ensures
        bytes_to_bits(bytes).len() == 8 * bytes.len(),
    decreases bytes.len(),
{
    if bytes.len() > 0 {
        lemma_bytes_to_bits_len(bytes.drop_last());
    }
}

/// Setting bit `j` leaves every other bit alone.
proof fn lemma_set_bit(b: u8, j: u8, k: u8)
    requires
        j < 8,
        k < 8,
    ensures
        bit_of(b | (1u8 << ((7 - j) as u8)), k as int) == if k == j {
            true
        } else {
            bit_of(b, k as int)
        },
{
    assert(((b | (1u8 << ((7 - j) as u8))) & (1u8 << ((7 - k) as u8)) != 0) == (if k == j {
        true
    } else {
        b & (1u8 << ((7 - k) as u8)) != 0
    })) by (bit_vector)
        requires
            j < 8,
            k < 8,
    ;
}

/// A zero byte has no bit set.
proof fn lemma_zero_bits(k: u8)
    requires
        k < 8,
    ensures
        !bit_of(0u8, k as int),
{
    assert((0u8 & (1u8 << ((7 - k) as u8))) == 0) by (bit_vector)
        requires
            k < 8,
    ;
}

/// Pack a bit sequence into bytes, most significant bit first, returning the
/// bytes and the number of zero padding bits appended to fill the last byte.
/// The padding count is tracked explicitly, never inferred.
#[verifier::loop_isolation(false)]
#[verifier::rlimit(60)]
pub fn pack_bits(bits: &Vec<bool>) -> (r: (Vec<u8>, u8))
    requires
        bits@.len() + 8 <= usize::MAX,
    ensures
        r.1 < 8,
        (bits@.len() + r.1 as int) % 8 == 0,
        bytes_to_bits(r.0@) == bits@ + Seq::new(r.1 as nat, |k: int| false),
{
    let pad: u8 = ((8 - bits.len() % 8) % 8) as u8;
    let ghost padded = bits@ + Seq::new(pad as nat, |k: int| false);
    proof {
        assert(padded.len() % 8 == 0);
        assert(padded.take(0) =~= Seq::<bool>::empty());
    }
    let mut bytes: Vec<u8> = Vec::new();
    let mut i: usize = 0;
    while i < bits.len()
        invariant
            i % 8 == 0,
            i <= padded.len(),
            i == 8 * bytes@.len(),
            bytes_to_bits(bytes@) == padded.take(i as int),
        decreases padded.len() - i,
    {
        let mut b: u8 = 0;
        let mut j: usize = 0;
        proof {
            assert forall|k: u8| k < 8 implies !bit_of(0u8, k as int) by {
                lemma_zero_bits(k);
            }
        }
        while j < 8
            invariant
                j <= 8,
                i + 8 <= usize::MAX,
                i < padded.len(),
                i + 8 <= padded.len(),
                forall|k: int| 0 <= k < j ==> #[trigger] bit_of(b, k) == padded[i + k],
                forall|k: int| j <= k < 8 ==> !(#[trigger] bit_of(b, k)),
            decreases 8 - j,
        {
            let bit = if j < bits.len() - i {
                bits[i + j]
            } else {
                false
            };
            proof {
                assert(padded[i + j] == bit);
            }
            if bit {
                let ghost b0 = b;
                b = b | (1u8 << ((7 - j) as u8));
                proof {
                    assert forall|k: int| 0 <= k < 8 implies #[trigger] bit_of(b, k) == (if k
                        == j {
                        true
                    } else {
                        bit_of(b0, k)
                    }) by {
                        lemma_set_bit(b0, j as u8, k as u8);
                    }
                }
            }
            j += 1;
        }
        let ghost prevbytes = bytes@;
        bytes.push(b);
        proof {
            assert(byte_to_bits(b) =~= padded.subrange(i as int, i + 8));
            assert(bytes@.drop_last() =~= prevbytes);
            assert(bytes_to_bits(bytes@) =~= padded.take(i + 8));
        }
        i += 8;
    }
    proof {
        assert(i == padded.len());
        assert(padded.take(padded.len() as int) =~= padded);
    }
    (bytes, pad)
}

/// Unpack bytes into bits, most significant bit first, dropping `pad`
/// trailing padding bits. Rejects a padding count that no packed buffer can
/// carry: eight or more, or any padding on an empty buffer.
#[verifier::loop_isolation(false)]
pub fn unpack_bits(bytes: &Vec<u8>, pad: u8) -> (r: Result<Vec<bool>, CodecError>)
    ensures
        match r {
            Ok(bits) => {
                &&& pad < 8
                &&& pad as int <= 8 * bytes@.len()
                &&& bits@ == bytes_to_bits(bytes@).take(8 * bytes@.len() - pad as int)
            },
            Err(e) => {
                &&& e == CodecError::CorruptStream
                &&& (pad >= 8 || (bytes@.len() == 0 && pad > 0))
            },
        },
{
    if pad >= 8 || (bytes.len() == 0 && pad > 0) {
        return Err(CodecError::CorruptStream);
    }
    let mut bits: Vec<bool> = Vec::new();
    let mut k: usize = 0;
    proof {
        assert(bytes@.take(0) =~= Seq::<u8>::empty());
    }
    while k < bytes.len()
        invariant
            k <= bytes@.len(),
            bits@ == bytes_to_bits(bytes@.take(k as int)),
            bits@.len() == 8 * k,
        decreases bytes@.len() - k,
    {
        let b = bytes[k];
        let mut j: u8 = 0;
        let ghost prev = bits@;
        while j < 8
            invariant
                j <= 8,
                k < bytes@.len(),
                b == bytes@[k as int],
                bits@ == prev + byte_to_bits(b).take(j as int),
            decreases 8 - j,
        {
            let bit = (b & (1u8 << (7 - j))) != 0;
            proof {
                assert(bit == bit_of(b, j as int));
                assert((prev + byte_to_bits(b).take(j as int)).push(bit) =~= prev + byte_to_bits(
                    b,
                ).take(j as int + 1));
            }
            bits.push(bit);
            j += 1;
        }
        proof {
            assert(byte_to_bits(b).take(8) =~= byte_to_bits(b));
            assert(bytes@.take(k + 1).drop_last() =~= bytes@.take(k as int));
            assert(bytes@.take(k + 1).last() == bytes@[k as int]);
            lemma_bytes_to_bits_len(bytes@.take(k as int));
        }
        k += 1;
    }
    proof {
        assert(bytes@.take(bytes@.len() as int) =~= bytes@);
    }
    // Drop the padding bits from the tail.
    let mut x: u8 = 0;
    let ghost full = bits@;
    while x < pad
        invariant
            x <= pad,
            pad < 8,
            pad as int <= full.len(),
            full == bytes_to_bits(bytes@),
            full.len() == 8 * bytes@.len(),
            bits@ == full.take(full.len() - x as int),
        decreases pad - x,
    {
        proof {
            assert(full.take(full.len() - x as int).drop_last() =~= full.take(
                full.len() - (x + 1),
            ));
        }
        let _ = bits.pop();
        x += 1;
    }
    Ok(bits)
}

/// A failed insert below a node names a colliding codeword of the node
/// itself: the child's collision, with the branch bit put back in front.
proof fn trie_insert_node_err(t: Trie, other: Trie, oldc: Trie, code: Seq<bool>, i: int, b: bool)
    requires
        0 <= i < code.len(),
        code[i] == b,
        t is Node,
        oldc == if b {
            *t->Node_1
        } else {
            *t->Node_0
        },
        exists|p: Seq<bool>, s2: u16| trie_code(oldc, p, s2) && prefix_related(p, code.skip(i + 1)),
    ensures
        exists|p: Seq<bool>, s2: u16| trie_code(t, p, s2) && prefix_related(p, code.skip(i)),
{
    let suffix = code.skip(i);
    assert(suffix[0] == b);
    assert(suffix =~= seq![b] + code.skip(i + 1));
    let (p, s2) = choose|p: Seq<bool>, s2: u16|
        trie_code(oldc, p, s2) && prefix_related(p, code.skip(i + 1));
    let q = seq![b] + p;
    assert(q[0] == b);
    assert(q.drop_first() =~= p);
    assert(trie_sub(t, q) == trie_sub(oldc, p));
    lemma_prefix_cons(b, p, code.skip(i + 1));
    lemma_prefix_cons(b, code.skip(i + 1), p);
    assert(trie_code(t, q, s2) && prefix_related(q, suffix));
}

} // verus!
