use vstd::prelude::*;

use vstd::pervasive::unreached;

use crate::bitcode::concat_codes;
use crate::bitcode::decode_bits;
use crate::bitcode::encode_bits;
use crate::bitcode::lemma_decode_concat;
use crate::bitcode::spec_decode_syms;
use crate::book::book_view;
use crate::book::codes_wf;
use crate::book::sym_in_book;
use crate::book::syms_unique;
use crate::book::CodeEntry;
use crate::config::CodecConfig;
use crate::errors::CodecError;
use crate::huffman::build_codebook;
use crate::huffman::count_of;
use crate::huffman::lemma_count_of_bounds;
use crate::huffman::spec_book;
use crate::lz77::lz77_decode;
use crate::lz77::lz77_encode;
use crate::lz77::spec_lz77_tokens;
use crate::lz77::spec_replay;
use crate::lz77::token_ok;
use crate::lz77::Token;
use crate::symbols::lemma_parse_symbols_round_trip;
use crate::symbols::spec_parse_tokens;
use crate::symbols::spec_symbols;
use crate::symbols::symbols_to_tokens;
use crate::symbols::token_encodable;
use crate::symbols::tokens_to_symbols;

verus! {

/// The codebook `compress` derives for an input under a configuration.
pub open spec fn spec_compress_book(data: Seq<u8>, cfg: CodecConfig) -> Seq<(u16, Seq<bool>)> {
    spec_book(spec_symbols(spec_lz77_tokens(data, cfg, 0)))
}

/// The bit sequence `compress` produces for an input under a configuration.
pub open spec fn spec_compress_bits(data: Seq<u8>, cfg: CodecConfig) -> Seq<bool> {
    concat_codes(spec_compress_book(data, cfg), spec_symbols(spec_lz77_tokens(data, cfg, 0)))
}

/// What decompression means: decode the bits against the codebook, regroup
/// the symbols into tokens, and replay the tokens. `None` wherever any stage
/// rejects its input.
pub open spec fn spec_decompress(
    bits: Seq<bool>,
    book: Seq<(u16, Seq<bool>)>,
    cfg: CodecConfig,
) -> Option<Seq<u8>> {
    if !codes_wf(book) {
        None
    } else {
        match spec_decode_syms(book, bits) {
            Some(syms) => match spec_parse_tokens(syms) {
                Some(ts) => spec_replay(ts, cfg),
                None => None,
            },
            None => None,
        }
    }
}

/// The error a failed decompression reports: `TokenMisalignment` exactly
/// when the bits decode but the symbol count is not a multiple of the token
/// width; every other failure is a corrupt stream.
pub open spec fn spec_decompress_err(
    bits: Seq<bool>,
    book: Seq<(u16, Seq<bool>)>,
    cfg: CodecConfig,
) -> CodecError {
    if !codes_wf(book) {
        CodecError::CorruptStream
    } else {
        match spec_decode_syms(book, bits) {
            Some(syms) => if syms.len() % 3 != 0 {
                CodecError::TokenMisalignment
            } else {
                CodecError::CorruptStream
            },
            None => CodecError::CorruptStream,
        }
    }
}

/// Everything `compress` promises of its output: the bits and the codebook
/// are the unique ones this pipeline assigns to the input, the codebook is
/// prefix-free with no zero-length code and one entry per symbol, and
/// decompressing the output under the same configuration gives the input
/// back.
pub open spec fn compress_post(
    data: Seq<u8>,
    cfg: CodecConfig,
    bits: Seq<bool>,
    book: Seq<(u16, Seq<bool>)>,
) -> bool {
    &&& bits == spec_compress_bits(data, cfg)
    &&& book == spec_compress_book(data, cfg)
    &&& codes_wf(book)
    &&& syms_unique(book)
    &&& spec_decompress(bits, book, cfg) == Some(data)
}

/// Everything `decompress` promises of its result: success returns exactly
/// what the decoding pipeline assigns to the inputs, and failure reports the
/// rejecting stage, only when the pipeline rejects.
pub open spec fn decompress_post(
    bits: Seq<bool>,
    book: Seq<(u16, Seq<bool>)>,
    cfg: CodecConfig,
    r: Result<Seq<u8>, CodecError>,
) -> bool {
    match r {
        Ok(out) => spec_decompress(bits, book, cfg) == Some(out),
        Err(e) => spec_decompress(bits, book, cfg) is None && e == spec_decompress_err(
            bits,
            book,
            cfg,
        ),
    }
}

/// Round trip: feeding what `compress` produced to `decompress`, under the
/// same configuration, succeeds with exactly the original bytes — for every
/// finite byte sequence, the empty one included.
pub proof fn lemma_round_trip(
    data: Seq<u8>,
    cfg: CodecConfig,
    bits: Seq<bool>,
    book: Seq<(u16, Seq<bool>)>,
    r: Result<Seq<u8>, CodecError>,
)
    requires
        compress_post(data, cfg, bits, book),
        decompress_post(bits, book, cfg, r),
    ensures
        r == Ok::<Seq<u8>, CodecError>(data),
{
}

/// Codebook validity: the codebook of every compression result is
/// prefix-free and assigns no zero-length code, so its bit stream is
/// self-delimiting.
pub proof fn lemma_codebook_valid(
    data: Seq<u8>,
    cfg: CodecConfig,
    bits: Seq<bool>,
    book: Seq<(u16, Seq<bool>)>,
)
    requires
        compress_post(data, cfg, bits, book),
    ensures
        codes_wf(book),
        forall|i: int| 0 <= i < book.len() ==> (#[trigger] book[i]).1.len() >= 1,
{
}

/// Determinism: two compression results for the same input under the same
/// configuration are bit-identical, codebooks included — the contract of
/// `compress` pins its output completely.
pub proof fn lemma_compress_deterministic(
    data: Seq<u8>,
    cfg: CodecConfig,
    bits1: Seq<bool>,
    book1: Seq<(u16, Seq<bool>)>,
    bits2: Seq<bool>,
    book2: Seq<(u16, Seq<bool>)>,
)
    requires
        compress_post(data, cfg, bits1, book1),
        compress_post(data, cfg, bits2, book2),
    ensures
        bits1 == bits2,
        book1 == book2,
{
}

/// Compress a byte sequence: find window matches, flatten the tokens into
/// symbols, build the Huffman codebook from their frequencies, and emit the
/// concatenated codes. Returns the bit sequence and the codebook it decodes
/// against; the codebook is not derivable from the bits alone.
pub fn compress(data: &[u8], cfg: &CodecConfig) -> (r: (Vec<bool>, Vec<CodeEntry>))
    requires
        cfg.wf(),
    ensures
        compress_post(data@, *cfg, r.0@, book_view(r.1@)),
        data@.len() == 0 ==> r.0@.len() == 0 && r.1@.len() == 0,
{
    let tokens = lz77_encode(data, cfg);
    let syms = tokens_to_symbols(&tokens);
    let book = build_codebook(&syms);
    let ghost bv = book_view(book@);
    proof {
        assert forall|k: int| 0 <= k < syms@.len() implies sym_in_book(
            bv,
            #[trigger] syms@[k],
        ) by {
            lemma_count_of_bounds(syms@, syms@[k]);
        }
    }
    let bits = match encode_bits(&syms, &book) {
        Ok(bits) => bits,
        Err(_) => {
            proof {
                assert(false);
            }
            unreached()
        },
    };
    proof {
        lemma_decode_concat(bv, syms@);
        assert forall|k: int| 0 <= k < tokens@.len() implies token_encodable(
            #[trigger] tokens@[k],
        ) by {
            let out = spec_replay(tokens@.take(k), *cfg)->Some_0;
            assert(token_ok(out.len() as int, *cfg, tokens@[k]));
        }
        lemma_parse_symbols_round_trip(tokens@);
        if data@.len() == 0 {
            assert(spec_lz77_tokens(data@, *cfg, 0) == Seq::<Token>::empty());
        }
    }
    (bits, book)
}

/// Decompress a bit sequence against its codebook: decode symbols through
/// the trie, regroup them into tokens, and replay the tokens into bytes.
/// Succeeds exactly when every stage accepts, and then returns exactly what
/// was compressed; the error otherwise says which stage rejected.
pub fn decompress(bits: &Vec<bool>, book: &Vec<CodeEntry>, cfg: &CodecConfig) -> (r: Result<
    Vec<u8>,
    CodecError,
>)
    ensures
        decompress_post(
            bits@,
            book_view(book@),
            *cfg,
            match r {
                Ok(out) => Ok(out@),
                Err(e) => Err(e),
            },
        ),
{
    let syms = match decode_bits(bits, book) {
        Ok(syms) => syms,
        Err(e) => {
            return Err(e);
        },
    };
    let tokens = match symbols_to_tokens(&syms) {
        Ok(tokens) => tokens,
        Err(e) => {
            return Err(e);
        },
    };
    match lz77_decode(tokens.as_slice(), cfg) {
        Ok(out) => Ok(out),
        Err(e) => Err(e),
    }
}

} // verus!
