//! SentencePiece-style byte-pair encoding, the scheme Llama-family models use
//! to turn text into token ids and back. The vocabulary (id -> piece) and the
//! ordered merge rules come from the GGUF metadata.
//!
//! Encoding marks spaces (and the start of the text) with U+2581, seeds one
//! piece per character (falling back to `<0xHH>` byte pieces for characters
//! the vocabulary lacks), then repeatedly merges the adjacent pair whose merge
//! rule comes first in the list, until no rule applies.
use vstd::prelude::*;
use vstd::utf8::*;

use crate::gguf::{GgufFile, GgufValue, SpecValue, metadata_lookup};
use crate::text::{
    char_utf8,
    chars_utf8,
    trim_start_chars,
    chars_eq,
    is_whitespace,
    str_chars,
    string_from_chars,
    string_from_utf8_lossy,
    trim_start,
    lossy_text,
};

verus! {

/// SentencePiece's stand-in for a space, U+2581.
pub const SPACE_MARKER: char = '\u{2581}';

/// A byte-pair-encoding tokenizer: the piece of every id, the merge rules in
/// priority order, and the BOS and EOS ids.
pub struct Tokenizer {
    id_to_token: Vec<Vec<char>>,
    merges: Vec<(Vec<char>, Vec<char>)>,
    bos_token_id: usize,
    eos_token_id: usize,
}

/// The model of a tokenizer: the piece of every id, the merge rules in
/// priority order (lowest index first), and the two special ids.
pub struct TokenizerModel {
    pub vocab: Seq<Seq<char>>,
    pub merges: Seq<(Seq<char>, Seq<char>)>,
    pub bos: usize,
    pub eos: usize,
}

/// Pieces as character sequences.
pub open spec fn pieces_view(ps: Seq<Vec<char>>) -> Seq<Seq<char>> {
    Seq::new(ps.len(), |i: int| ps[i]@)
}

/// Merge rules as pairs of character sequences.
pub open spec fn pairs_view(ms: Seq<(Vec<char>, Vec<char>)>) -> Seq<(Seq<char>, Seq<char>)> {
    Seq::new(ms.len(), |i: int| (ms[i].0@, ms[i].1@))
}

impl Tokenizer {
    /// The tokenizer as a [`TokenizerModel`].
    pub closed spec fn model(&self) -> TokenizerModel {
        TokenizerModel {
            vocab: pieces_view(self.id_to_token@),
            merges: pairs_view(self.merges@),
            bos: self.bos_token_id,
            eos: self.eos_token_id,
        }
    }
}

impl View for Tokenizer {
    type V = TokenizerModel;

    open spec fn view(&self) -> TokenizerModel {
        self.model()
    }
}

// ---------------------------------------------------------------------------
// Encoding, stated over sequences.
// ---------------------------------------------------------------------------

/// The last index at which `x` occurs in `s`. Building a hash map from
/// (item, index) pairs keeps the last index of a repeated item, so this is
/// the id of a piece and the rank of a merge rule.
pub open spec fn last_index_of<A>(s: Seq<A>, x: A) -> Option<int>
    decreases s.len(),
{
    if s.len() == 0 {
        None
    } else if s.last() == x {
        Some(s.len() - 1)
    } else {
        last_index_of(s.drop_last(), x)
    }
}

/// Every space becomes the marker, and one marker is put in front.
pub open spec fn normalize(text: Seq<char>) -> Seq<char> {
    seq![SPACE_MARKER] + Seq::new(
        text.len(),
        |i: int|
            if text[i] == ' ' {
                SPACE_MARKER
            } else {
                text[i]
            },
    )
}

/// The upper-case hexadecimal digits, `0` to `F`.
pub open spec fn hex_digits() -> Seq<char> {
    seq!['0', '1', '2', '3', '4', '5', '6', '7', '8', '9', 'A', 'B', 'C', 'D', 'E', 'F']
}

/// The byte-fallback piece of a byte: `<0x` two upper-case hex digits `>`.
pub open spec fn fallback_piece(b: u8) -> Seq<char> {
    seq!['<', '0', 'x', hex_digits()[(b / 16) as int], hex_digits()[(b % 16) as int], '>']
}

/// The fallback piece of every byte, in order.
pub open spec fn fallback_pieces(bytes: Seq<u8>) -> Seq<Seq<char>> {
    Seq::new(bytes.len(), |i: int| fallback_piece(bytes[i]))
}

/// The starting pieces of one character: the character itself when it is a
/// vocabulary piece on its own, else one fallback piece per UTF-8 byte. A
/// NUL character that is a vocabulary piece yields two empty pieces, since
/// the pieces are split on NUL.
pub open spec fn seed_char(vocab: Seq<Seq<char>>, c: char) -> Seq<Seq<char>> {
    if last_index_of(vocab, seq![c]) is Some {
        if c == '\0' {
            seq![Seq::<char>::empty(), Seq::<char>::empty()]
        } else {
            seq![seq![c]]
        }
    } else {
        fallback_pieces(encode_utf8(seq![c]))
    }
}

/// The starting pieces of a text: those of each character, in order.
pub open spec fn seed(vocab: Seq<Seq<char>>, cs: Seq<char>) -> Seq<Seq<char>>
    decreases cs.len(),
{
    if cs.len() == 0 {
        seq![]
    } else {
        seed(vocab, cs.drop_last()) + seed_char(vocab, cs.last())
    }
}

/// The rank of the rule merging `l` and `r`: its last position in the merge list.
pub open spec fn merge_rank(merges: Seq<(Seq<char>, Seq<char>)>, l: Seq<char>, r: Seq<char>) -> Option<
    int,
> {
    last_index_of(merges, (l, r))
}

/// Among the adjacent pairs starting before `k`, the (index, rank) of the one
/// with the lowest rank, the leftmost one among equal ranks.
pub open spec fn best_merge_upto(
    merges: Seq<(Seq<char>, Seq<char>)>,
    ps: Seq<Seq<char>>,
    k: nat,
) -> Option<(int, int)>
    decreases k,
{
    if k == 0 {
        None
    } else {
        let b = best_merge_upto(merges, ps, (k - 1) as nat);
        match merge_rank(merges, ps[k - 1], ps[k as int]) {
            Some(r) => match b {
                Some((_, br)) => if r < br {
                    Some(((k - 1) as int, r))
                } else {
                    b
                },
                None => Some(((k - 1) as int, r)),
            },
            None => b,
        }
    }
}

/// The (index, rank) of the pair to merge next, if any rule applies.
pub open spec fn best_merge(merges: Seq<(Seq<char>, Seq<char>)>, ps: Seq<Seq<char>>) -> Option<
    (int, int),
> {
    if ps.len() < 2 {
        None
    } else {
        best_merge_upto(merges, ps, (ps.len() - 1) as nat)
    }
}

/// Pieces `i` and `i + 1` replaced by their concatenation.
pub open spec fn merge_at(ps: Seq<Seq<char>>, i: int) -> Seq<Seq<char>> {
    ps.subrange(0, i) + seq![ps[i] + ps[i + 1]] + ps.subrange(i + 2, ps.len() as int)
}

/// Merging until no rule applies to any adjacent pair.
pub open spec fn bpe(merges: Seq<(Seq<char>, Seq<char>)>, ps: Seq<Seq<char>>) -> Seq<Seq<char>>
    decreases ps.len(),
{
    match best_merge(merges, ps) {
        Some((i, _)) => if 0 <= i && i + 1 < ps.len() {
            bpe(merges, merge_at(ps, i))
        } else {
            ps
        },
        None => ps,
    }
}

/// The id of every piece, or `None` when some piece is not in the vocabulary.
pub open spec fn piece_ids(vocab: Seq<Seq<char>>, ps: Seq<Seq<char>>) -> Option<Seq<usize>>
    decreases ps.len(),
{
    if ps.len() == 0 {
        Some(seq![])
    } else {
        match piece_ids(vocab, ps.drop_last()) {
            Some(ids) => match last_index_of(vocab, ps.last()) {
                Some(id) => Some(ids.push(id as usize)),
                None => None,
            },
            None => None,
        }
    }
}

/// The pieces of a text once merging is done.
pub open spec fn encode_pieces(m: TokenizerModel, text: Seq<char>) -> Seq<Seq<char>> {
    bpe(m.merges, seed(m.vocab, normalize(text)))
}

/// The ids of a text, or `None` when a piece is not in the vocabulary.
pub open spec fn spec_encode(m: TokenizerModel, text: Seq<char>) -> Option<Seq<usize>> {
    piece_ids(m.vocab, encode_pieces(m, text))
}

/// An optional index as an optional integer.
pub open spec fn opt_usize_view(r: Option<usize>) -> Option<int> {
    match r {
        Some(x) => Some(x as int),
        None => None,
    }
}

/// An optional (index, rank) pair as integers.
pub open spec fn best_view(r: Option<(usize, usize)>) -> Option<(int, int)> {
    match r {
        Some((i, k)) => Some((i as int, k as int)),
        None => None,
    }
}

/// The byte-fallback piece of a byte, as a string, e.g. `<0x0A>` for a newline.
pub fn byte_fallback_token(byte: u8) -> (r: String)
    ensures
        r@ == fallback_piece(byte),
{
    string_from_chars(&fallback_chars(byte))
}

fn fallback_chars(byte: u8) -> (r: Vec<char>)
    ensures
        r@ == fallback_piece(byte),
{
    let digits: [char; 16] = [
        '0', '1', '2', '3', '4', '5', '6', '7', '8', '9', 'A', 'B', 'C', 'D', 'E', 'F',
    ];
    proof {
        assert(digits@ =~= hex_digits());
    }
    let hi = digits[(byte / 16) as usize];
    let lo = digits[(byte % 16) as usize];
    let r = vec!['<', '0', 'x', hi, lo, '>'];
    proof {
        assert(r@ =~= fallback_piece(byte));
    }
    r
}

impl Tokenizer {
    /// The id of a piece: the last vocabulary index holding it.
    fn find_token(&self, piece: &Vec<char>) -> (r: Option<usize>)
        ensures
            opt_usize_view(r) == last_index_of(self@.vocab, piece@),
            r matches Some(id) ==> id < self@.vocab.len(),
    {
        let ghost vocab = self@.vocab;
        let mut i: usize = self.id_to_token.len();
        proof {
            assert(vocab.subrange(0, i as int) =~= vocab);
        }
        while i > 0
            invariant
                i <= self.id_to_token@.len(),
                vocab == self@.vocab,
                vocab.len() == self.id_to_token@.len(),
                last_index_of(vocab, piece@) == last_index_of(vocab.subrange(0, i as int), piece@),
            decreases i,
        {
            proof {
                assert(vocab.subrange(0, i as int).drop_last() =~= vocab.subrange(0, i - 1));
                assert(vocab[i - 1] == self.id_to_token@[i - 1]@);
            }
            if chars_eq(&self.id_to_token[i - 1], piece) {
                return Some(i - 1);
            }
            i = i - 1;
        }
        None
    }

    /// The rank of the merge rule for the pair (`l`, `r`).
    fn merge_rank(&self, l: &Vec<char>, r: &Vec<char>) -> (res: Option<usize>)
        ensures
            opt_usize_view(res) == merge_rank(self@.merges, l@, r@),
    {
        let ghost merges = self@.merges;
        let mut i: usize = self.merges.len();
        proof {
            assert(merges.subrange(0, i as int) =~= merges);
        }
        while i > 0
            invariant
                i <= self.merges@.len(),
                merges == self@.merges,
                merges.len() == self.merges@.len(),
                last_index_of(merges, (l@, r@)) == last_index_of(
                    merges.subrange(0, i as int),
                    (l@, r@),
                ),
            decreases i,
        {
            proof {
                assert(merges.subrange(0, i as int).drop_last() =~= merges.subrange(0, i - 1));
                assert(merges[i - 1] == (self.merges@[i - 1].0@, self.merges@[i - 1].1@));
            }
            if chars_eq(&self.merges[i - 1].0, l) && chars_eq(&self.merges[i - 1].1, r) {
                return Some(i - 1);
            }
            i = i - 1;
        }
        None
    }

    /// The index of the adjacent pair to merge next, if any rule applies.
    fn best_merge(&self, pieces: &Vec<Vec<char>>) -> (r: Option<usize>)
        ensures
            match r {
                Some(i) => best_merge(self@.merges, pieces_view(pieces@)) matches Some((j, _))
                    && j == i,
                None => best_merge(self@.merges, pieces_view(pieces@)) is None,
            },
            r matches Some(i) ==> i + 1 < pieces@.len(),
    {
        let ghost ps = pieces_view(pieces@);
        if pieces.len() < 2 {
            return None;
        }
        let mut best: Option<(usize, usize)> = None;
        let mut i: usize = 0;
        while i < pieces.len() - 1
            invariant
                pieces@.len() >= 2,
                i <= pieces@.len() - 1,
                ps == pieces_view(pieces@),
                best_view(best) == best_merge_upto(self@.merges, ps, i as nat),
                best matches Some((bi, _)) ==> bi < i,
            decreases pieces.len() - 1 - i,
        {
            let rank = self.merge_rank(&pieces[i], &pieces[i + 1]);
            proof {
                assert(ps[i as int] == pieces@[i as int]@);
                assert(ps[i + 1] == pieces@[i + 1]@);
            }
            match rank {
                Some(r) => {
                    match best {
                        Some((_, br)) => {
                            if r < br {
                                best = Some((i, r));
                            }
                        },
                        None => {
                            best = Some((i, r));
                        },
                    }
                },
                None => {},
            }
            i = i + 1;
        }
        match best {
            Some((bi, _)) => Some(bi),
            None => None,
        }
    }
}

/// Replaces pieces `i` and `i + 1` by their concatenation.
fn merge_pieces(pieces: &mut Vec<Vec<char>>, i: usize)
    requires
        i + 1 < old(pieces).len(),
    ensures
        pieces_view(final(pieces)@) == merge_at(pieces_view(old(pieces)@), i as int),
{
    let ghost before = pieces_view(pieces@);
    let mut right = pieces.remove(i + 1);
    let mut left = pieces.remove(i);
    let ghost l = left@;
    let ghost r = right@;
    left.append(&mut right);
    pieces.insert(i, left);
    proof {
        assert(l == before[i as int]);
        assert(r == before[i + 1]);
        assert(pieces_view(pieces@) =~= merge_at(before, i as int));
    }
}

impl Tokenizer {
    /// Encodes text into token ids (without a BOS token).
    ///
    /// The ids are those of the pieces left when merging is done
    /// ([`spec_encode`]); `None` when one of those pieces is not in the
    /// vocabulary. This is the check for [`Tokenizer::encode`].
    pub fn try_encode(&self, text: &str) -> (r: Option<Vec<usize>>)
        ensures
            match r {
                Some(ids) => spec_encode(self@, text@) == Some(ids@),
                None => spec_encode(self@, text@) is None,
            },
    {
        let chars = str_chars(text);
        let normalized = normalize_chars(&chars);
        let mut pieces = self.seed_pieces(&normalized);
        loop
            invariant
                encode_pieces(self@, text@) == bpe(self@.merges, pieces_view(pieces@)),
            ensures
                encode_pieces(self@, text@) == pieces_view(pieces@),
            decreases pieces@.len(),
        {
            match self.best_merge(&pieces) {
                Some(i) => {
                    let ghost before = pieces_view(pieces@);
                    merge_pieces(&mut pieces, i);
                    proof {
                        assert(pieces_view(pieces@).len() == pieces@.len());
                        assert(before.len() == before.len() - 1 + 1);
                    }
                },
                None => {
                    break;
                },
            }
        }
        self.pieces_to_ids(&pieces)
    }

    /// The starting pieces of a normalized character sequence.
    fn seed_pieces(&self, cs: &Vec<char>) -> (r: Vec<Vec<char>>)
        ensures
            pieces_view(r@) == seed(self@.vocab, cs@),
    {
        let mut pieces: Vec<Vec<char>> = Vec::new();
        let mut i: usize = 0;
        proof {
            assert(cs@.subrange(0, 0) =~= Seq::<char>::empty());
            assert(pieces_view(pieces@) =~= seq![]);
        }
        while i < cs.len()
            invariant
                i <= cs@.len(),
                pieces_view(pieces@) == seed(self@.vocab, cs@.subrange(0, i as int)),
            decreases cs.len() - i,
        {
            let c = cs[i];
            let ghost before = pieces_view(pieces@);
            let single = vec![c];
            proof {
                assert(single@ =~= seq![c]);
            }
            if self.find_token(&single).is_some() {
                if c == '\0' {
                    pieces.push(Vec::new());
                    pieces.push(Vec::new());
                } else {
                    pieces.push(single);
                }
                proof {
                    assert(pieces_view(pieces@) =~= before + seed_char(self@.vocab, c));
                }
            } else {
                let bytes = char_utf8(c);
                let mut j: usize = 0;
                while j < bytes.len()
                    invariant
                        j <= bytes@.len(),
                        bytes@ == encode_utf8(seq![c]),
                        pieces_view(pieces@) == before + fallback_pieces(
                            bytes@.subrange(0, j as int),
                        ),
                    decreases bytes.len() - j,
                {
                    let ghost mid = pieces@;
                    pieces.push(fallback_chars(bytes[j]));
                    proof {
                        assert(pieces_view(pieces@) =~= pieces_view(mid).push(
                            fallback_piece(bytes@[j as int]),
                        ));
                        assert(fallback_pieces(bytes@.subrange(0, j + 1)) =~= fallback_pieces(
                            bytes@.subrange(0, j as int),
                        ).push(fallback_piece(bytes@[j as int])));
                    }
                    j = j + 1;
                }
                proof {
                    assert(bytes@.subrange(0, bytes@.len() as int) =~= bytes@);
                }
            }
            proof {
                assert(cs@.subrange(0, i + 1).drop_last() =~= cs@.subrange(0, i as int));
            }
            i = i + 1;
        }
        proof {
            assert(cs@.subrange(0, cs@.len() as int) =~= cs@);
        }
        pieces
    }

    /// The id of every piece, or `None` at the first piece not in the vocabulary.
    fn pieces_to_ids(&self, pieces: &Vec<Vec<char>>) -> (r: Option<Vec<usize>>)
        ensures
            match r {
                Some(ids) => piece_ids(self@.vocab, pieces_view(pieces@)) == Some(ids@),
                None => piece_ids(self@.vocab, pieces_view(pieces@)) is None,
            },
    {
        let ghost ps = pieces_view(pieces@);
        let mut ids: Vec<usize> = Vec::new();
        let mut i: usize = 0;
        proof {
            assert(ps.subrange(0, 0) =~= Seq::<Seq<char>>::empty());
        }
        while i < pieces.len()
            invariant
                i <= pieces@.len(),
                ps == pieces_view(pieces@),
                piece_ids(self@.vocab, ps.subrange(0, i as int)) == Some(ids@),
            decreases pieces.len() - i,
        {
            proof {
                assert(ps.subrange(0, i + 1).drop_last() =~= ps.subrange(0, i as int));
                assert(ps.subrange(0, i + 1).last() == pieces@[i as int]@);
            }
            match self.find_token(&pieces[i]) {
                Some(id) => {
                    ids.push(id);
                },
                None => {
                    proof {
                        lemma_piece_ids_prefix_none(self@.vocab, ps, i + 1);
                    }
                    return None;
                },
            }
            i = i + 1;
        }
        proof {
            assert(ps.subrange(0, ps.len() as int) =~= ps);
        }
        Some(ids)
    }
}

/// The marked text: a marker, then the text with each space replaced by a marker.
fn normalize_chars(cs: &Vec<char>) -> (r: Vec<char>)
    ensures
        r@ == normalize(cs@),
{
    let mut out: Vec<char> = Vec::new();
    out.push(SPACE_MARKER);
    let mut i: usize = 0;
    while i < cs.len()
        invariant
            i <= cs@.len(),
            out@.len() == i + 1,
            out@[0] == SPACE_MARKER,
            forall|j: int|
                0 <= j < i ==> out@[j + 1] == (if cs@[j] == ' ' {
                    SPACE_MARKER
                } else {
                    cs@[j]
                }),
        decreases cs.len() - i,
    {
        if cs[i] == ' ' {
            out.push(SPACE_MARKER);
        } else {
            out.push(cs[i]);
        }
        i = i + 1;
    }
    proof {
        assert(out@ =~= normalize(cs@));
    }
    out
}

/// Once some prefix of the pieces has no id, no longer prefix has ids either.
proof fn lemma_piece_ids_prefix_none(vocab: Seq<Seq<char>>, ps: Seq<Seq<char>>, k: int)
    requires
        0 <= k <= ps.len(),
        piece_ids(vocab, ps.subrange(0, k)) is None,
    ensures
        piece_ids(vocab, ps) is None,
    decreases ps.len() - k,
{
    if k < ps.len() {
        assert(ps.subrange(0, k + 1).drop_last() =~= ps.subrange(0, k));
        lemma_piece_ids_prefix_none(vocab, ps, k + 1);
    } else {
        assert(ps.subrange(0, k) =~= ps);
    }
}


// ---------------------------------------------------------------------------
// Decoding.
// ---------------------------------------------------------------------------

/// Whether a piece looks like a byte-fallback piece: it starts with `<0x`
/// and ends with `>`.
pub open spec fn has_fallback_shape(p: Seq<char>) -> bool {
    p.len() >= 4 && p[0] == '<' && p[1] == '0' && p[2] == 'x' && p[p.len() - 1] == '>'
}

/// The value of a hexadecimal digit of either case.
pub open spec fn hex_digit_value(c: char) -> Option<int> {
    if '0' <= c <= '9' {
        Some(c as int - '0' as int)
    } else if 'a' <= c <= 'f' {
        Some(c as int - 'a' as int + 10)
    } else if 'A' <= c <= 'F' {
        Some(c as int - 'A' as int + 10)
    } else {
        None
    }
}

/// The value of a sequence of hex digits, or `None` if one is not a hex digit.
pub open spec fn hex_value(ds: Seq<char>) -> Option<int>
    decreases ds.len(),
{
    if ds.len() == 0 {
        Some(0)
    } else {
        match (hex_value(ds.drop_last()), hex_digit_value(ds.last())) {
            (Some(v), Some(d)) => Some(v * 16 + d),
            _ => None,
        }
    }
}

/// What `u8::from_str_radix(s, 16)` accepts: an optional `+`, then one or
/// more hex digits whose value is at most 255.
pub open spec fn parse_hex_u8(s: Seq<char>) -> Option<u8> {
    let ds = if s.len() > 0 && s[0] == '+' {
        s.drop_first()
    } else {
        s
    };
    hex_digits_u8(ds)
}

/// The byte written by one or more hex digits, if it is at most 255.
pub open spec fn hex_digits_u8(ds: Seq<char>) -> Option<u8> {
    if ds.len() == 0 {
        None
    } else {
        match hex_value(ds) {
            Some(v) => if v <= 255 {
                Some(v as u8)
            } else {
                None
            },
            None => None,
        }
    }
}

/// The hex digits of a byte-fallback piece.
pub open spec fn fallback_digits(p: Seq<char>) -> Seq<char> {
    p.subrange(3, p.len() - 1)
}

/// The raw bytes a piece stands for: the byte of a byte-fallback piece, else
/// the UTF-8 encoding of the piece; `None` for a malformed fallback piece.
pub open spec fn piece_bytes(p: Seq<char>) -> Option<Seq<u8>> {
    if has_fallback_shape(p) {
        match parse_hex_u8(fallback_digits(p)) {
            Some(b) => Some(seq![b]),
            None => None,
        }
    } else {
        Some(encode_utf8(p))
    }
}

/// The raw bytes of a token sequence, skipping BOS and EOS; `None` when an id
/// is out of range or names a malformed fallback piece.
pub open spec fn decode_bytes(m: TokenizerModel, ids: Seq<usize>) -> Option<Seq<u8>>
    decreases ids.len(),
{
    if ids.len() == 0 {
        Some(seq![])
    } else {
        match decode_bytes(m, ids.drop_last()) {
            None => None,
            Some(prefix) => {
                let id = ids.last();
                if id == m.bos || id == m.eos {
                    Some(prefix)
                } else if id >= m.vocab.len() {
                    None
                } else {
                    match piece_bytes(m.vocab[id as int]) {
                        Some(b) => Some(prefix + b),
                        None => None,
                    }
                }
            },
        }
    }
}

/// Every marker turned back into a space.
pub open spec fn unmark(s: Seq<char>) -> Seq<char> {
    Seq::new(
        s.len(),
        |i: int|
            if s[i] == SPACE_MARKER {
                ' '
            } else {
                s[i]
            },
    )
}

/// The text of a token sequence: the raw bytes decoded (invalid UTF-8
/// replaced), markers turned into spaces, leading whitespace removed.
pub open spec fn spec_decode(m: TokenizerModel, ids: Seq<usize>) -> Option<Seq<char>> {
    match decode_bytes(m, ids) {
        Some(raw) => Some(trim_start(unmark(lossy_text(raw)))),
        None => None,
    }
}

/// The display text of one token, without trimming: empty for BOS and EOS,
/// the decoded byte of a byte-fallback piece, else the piece with markers
/// turned into spaces.
pub open spec fn spec_decode_piece(m: TokenizerModel, id: usize) -> Option<Seq<char>> {
    if id == m.bos || id == m.eos {
        Some(seq![])
    } else if id >= m.vocab.len() {
        None
    } else {
        let p = m.vocab[id as int];
        if has_fallback_shape(p) {
            match parse_hex_u8(fallback_digits(p)) {
                Some(b) => Some(lossy_text(seq![b])),
                None => None,
            }
        } else {
            Some(unmark(p))
        }
    }
}

fn hex_digit(c: char) -> (r: Option<u32>)
    ensures
        match r {
            Some(d) => hex_digit_value(c) == Some(d as int) && d < 16,
            None => hex_digit_value(c) is None,
        },
{
    if '0' <= c && c <= '9' {
        Some((c as u32) - ('0' as u32))
    } else if 'a' <= c && c <= 'f' {
        Some((c as u32) - ('a' as u32) + 10)
    } else if 'A' <= c && c <= 'F' {
        Some((c as u32) - ('A' as u32) + 10)
    } else {
        None
    }
}

proof fn lemma_hex_value_bounds(ds: Seq<char>)
    ensures
        hex_value(ds) matches Some(v) ==> v >= 0,
    decreases ds.len(),
{
    if ds.len() > 0 {
        lemma_hex_value_bounds(ds.drop_last());
    }
}

/// Once the value of a digit prefix is above 255, the whole value is too,
/// or it has a non-digit.
proof fn lemma_hex_value_grows(ds: Seq<char>, k: int)
    requires
        0 <= k <= ds.len(),
        hex_value(ds.subrange(0, k)) matches Some(v) && v > 255,
    ensures
        match hex_value(ds) {
            Some(w) => w > 255,
            None => true,
        },
    decreases ds.len() - k,
{
    if k < ds.len() {
        assert(ds.subrange(0, k + 1).drop_last() =~= ds.subrange(0, k));
        lemma_hex_value_bounds(ds.subrange(0, k));
        if hex_value(ds.subrange(0, k + 1)) is None {
            lemma_hex_value_prefix_none(ds, k + 1);
        } else {
            lemma_hex_value_grows(ds, k + 1);
        }
    } else {
        assert(ds.subrange(0, k) =~= ds);
    }
}

/// A non-digit in a prefix makes the whole value `None`.
proof fn lemma_hex_value_prefix_none(ds: Seq<char>, k: int)
    requires
        0 <= k <= ds.len(),
        hex_value(ds.subrange(0, k)) is None,
    ensures
        hex_value(ds) is None,
    decreases ds.len() - k,
{
    if k < ds.len() {
        assert(ds.subrange(0, k + 1).drop_last() =~= ds.subrange(0, k));
        lemma_hex_value_prefix_none(ds, k + 1);
    } else {
        assert(ds.subrange(0, k) =~= ds);
    }
}

/// The byte written by the hex digits `p[start..end]`, as `u8::from_str_radix` reads it.
fn parse_hex_byte(p: &Vec<char>, start: usize, end: usize) -> (r: Option<u8>)
    requires
        start <= end <= p@.len(),
    ensures
        r == parse_hex_u8(p@.subrange(start as int, end as int)),
{
    let ghost s = p@.subrange(start as int, end as int);
    let mut i = start;
    if i < end && p[i] == '+' {
        i = i + 1;
    }
    let ghost ds = p@.subrange(i as int, end as int);
    proof {
        if s.len() > 0 && s[0] == '+' {
            assert(ds =~= s.drop_first());
        } else {
            assert(ds =~= s);
        }
    }
    if i == end {
        return None;
    }
    let ghost first = i;
    let mut v: u32 = 0;
    proof {
        assert(ds.subrange(0, 0) =~= Seq::<char>::empty());
    }
    while i < end
        invariant
            first <= i <= end <= p@.len(),
            ds == p@.subrange(first as int, end as int),
            ds.len() > 0,
            s == p@.subrange(start as int, end as int),
            parse_hex_u8(s) == hex_digits_u8(ds),
            hex_value(ds.subrange(0, i - first)) == Some(v as int),
            v <= 255,
        decreases end - i,
    {
        proof {
            assert(ds.subrange(0, i - first + 1).drop_last() =~= ds.subrange(0, i - first));
            assert(ds.subrange(0, i - first + 1).last() == p@[i as int]);
        }
        match hex_digit(p[i]) {
            Some(d) => {
                let w = v * 16 + d;
                if w > 255 {
                    proof {
                        lemma_hex_value_grows(ds, i - first + 1);
                    }
                    return None;
                }
                v = w;
            },
            None => {
                proof {
                    lemma_hex_value_prefix_none(ds, i - first + 1);
                }
                return None;
            },
        }
        i = i + 1;
    }
    proof {
        assert(ds.subrange(0, end - first) =~= ds);
    }
    Some(v as u8)
}

fn has_fallback_shape_exec(p: &Vec<char>) -> (r: bool)
    ensures
        r == has_fallback_shape(p@),
{
    p.len() >= 4 && p[0] == '<' && p[1] == '0' && p[2] == 'x' && p[p.len() - 1] == '>'
}

/// The raw bytes a piece stands for.
fn piece_bytes_exec(p: &Vec<char>) -> (r: Option<Vec<u8>>)
    ensures
        match r {
            Some(b) => piece_bytes(p@) == Some(b@),
            None => piece_bytes(p@) is None,
        },
{
    if has_fallback_shape_exec(p) {
        match parse_hex_byte(p, 3, p.len() - 1) {
            Some(b) => {
                let v = vec![b];
                proof {
                    assert(v@ =~= seq![b]);
                }
                Some(v)
            },
            None => None,
        }
    } else {
        Some(chars_utf8(p))
    }
}

/// Every marker turned back into a space.
fn unmark_chars(s: &Vec<char>) -> (r: Vec<char>)
    ensures
        r@ == unmark(s@),
{
    let mut out: Vec<char> = Vec::new();
    let mut i: usize = 0;
    while i < s.len()
        invariant
            i <= s@.len(),
            out@.len() == i,
            forall|j: int|
                0 <= j < i ==> out@[j] == (if s@[j] == SPACE_MARKER {
                    ' '
                } else {
                    s@[j]
                }),
        decreases s.len() - i,
    {
        if s[i] == SPACE_MARKER {
            out.push(' ');
        } else {
            out.push(s[i]);
        }
        i = i + 1;
    }
    proof {
        assert(out@ =~= unmark(s@));
    }
    out
}

proof fn lemma_decode_bytes_prefix_none(m: TokenizerModel, ids: Seq<usize>, k: int)
    requires
        0 <= k <= ids.len(),
        decode_bytes(m, ids.subrange(0, k)) is None,
    ensures
        decode_bytes(m, ids) is None,
    decreases ids.len() - k,
{
    if k < ids.len() {
        assert(ids.subrange(0, k + 1).drop_last() =~= ids.subrange(0, k));
        lemma_decode_bytes_prefix_none(m, ids, k + 1);
    } else {
        assert(ids.subrange(0, k) =~= ids);
    }
}

impl Tokenizer {
    /// The raw bytes of a token sequence (see [`decode_bytes`]).
    fn raw_bytes(&self, token_ids: &[usize]) -> (r: Option<Vec<u8>>)
        ensures
            match r {
                Some(b) => decode_bytes(self@, token_ids@) == Some(b@),
                None => decode_bytes(self@, token_ids@) is None,
            },
    {
        let ghost ids = token_ids@;
        let mut raw: Vec<u8> = Vec::new();
        let mut i: usize = 0;
        proof {
            assert(ids.subrange(0, 0) =~= Seq::<usize>::empty());
        }
        while i < token_ids.len()
            invariant
                i <= ids.len(),
                ids == token_ids@,
                decode_bytes(self@, ids.subrange(0, i as int)) == Some(raw@),
            decreases token_ids.len() - i,
        {
            let id = token_ids[i];
            proof {
                assert(ids.subrange(0, i + 1).drop_last() =~= ids.subrange(0, i as int));
                assert(ids.subrange(0, i + 1).last() == id);
            }
            if id == self.bos_token_id || id == self.eos_token_id {
            } else if id >= self.id_to_token.len() {
                proof {
                    lemma_decode_bytes_prefix_none(self@, ids, i + 1);
                }
                return None;
            } else {
                proof {
                    assert(self@.vocab[id as int] == self.id_to_token@[id as int]@);
                }
                match piece_bytes_exec(&self.id_to_token[id]) {
                    Some(mut b) => {
                        raw.append(&mut b);
                    },
                    None => {
                        proof {
                            lemma_decode_bytes_prefix_none(self@, ids, i + 1);
                        }
                        return None;
                    },
                }
            }
            i = i + 1;
        }
        proof {
            assert(ids.subrange(0, ids.len() as int) =~= ids);
        }
        Some(raw)
    }

    /// Decodes token ids back into text ([`spec_decode`]); `None` when an id
    /// is out of range or names a malformed byte-fallback piece. This is the
    /// check for [`Tokenizer::decode`].
    pub fn try_decode(&self, token_ids: &[usize]) -> (r: Option<String>)
        ensures
            match r {
                Some(s) => spec_decode(self@, token_ids@) == Some(s@),
                None => spec_decode(self@, token_ids@) is None,
            },
    {
        let raw = match self.raw_bytes(token_ids) {
            Some(b) => b,
            None => {
                return None;
            },
        };
        let text = string_from_utf8_lossy(raw.as_slice());
        let chars = str_chars(text.as_str());
        let unmarked = unmark_chars(&chars);
        let trimmed = trim_start_chars(&unmarked);
        Some(string_from_chars(&trimmed))
    }

    /// The display text of a single token, for streaming output, without the
    /// leading-whitespace trimming of [`Tokenizer::decode`]
    /// ([`spec_decode_piece`]); `None` when the id is out of range or names a
    /// malformed byte-fallback piece. This is the check for
    /// [`Tokenizer::decode_piece`].
    pub fn try_decode_piece(&self, token_id: usize) -> (r: Option<String>)
        ensures
            match r {
                Some(s) => spec_decode_piece(self@, token_id) == Some(s@),
                None => spec_decode_piece(self@, token_id) is None,
            },
    {
        if token_id == self.bos_token_id || token_id == self.eos_token_id {
            return Some(String::new());
        }
        if token_id >= self.id_to_token.len() {
            return None;
        }
        let piece = &self.id_to_token[token_id];
        proof {
            assert(self@.vocab[token_id as int] == piece@);
        }
        if has_fallback_shape_exec(piece) {
            match parse_hex_byte(piece, 3, piece.len() - 1) {
                Some(b) => {
                    let bytes: [u8; 1] = [b];
                    proof {
                        assert(bytes@ =~= seq![b]);
                    }
                    Some(string_from_utf8_lossy(&bytes))
                },
                None => None,
            }
        } else {
            Some(string_from_chars(&unmark_chars(piece)))
        }
    }

    /// Encodes text into token ids ([`spec_encode`]). The text must be
    /// encodable: every piece left when merging is done must be in the
    /// vocabulary ([`Tokenizer::try_encode`] checks it).
    pub fn encode(&self, text: &str) -> (r: Vec<usize>)
        requires
            spec_encode(self@, text@) is Some,
        ensures
            spec_encode(self@, text@) == Some(r@),
    {
        match self.try_encode(text) {
            Some(ids) => ids,
            None => Vec::new(),
        }
    }

    /// Decodes token ids back into text ([`spec_decode`]). Every id must be
    /// in range and name no malformed byte-fallback piece
    /// ([`Tokenizer::try_decode`] checks it).
    pub fn decode(&self, token_ids: &[usize]) -> (r: String)
        requires
            spec_decode(self@, token_ids@) is Some,
        ensures
            spec_decode(self@, token_ids@) == Some(r@),
    {
        match self.try_decode(token_ids) {
            Some(text) => text,
            None => String::new(),
        }
    }

    /// The display text of one token, keeping its leading space
    /// ([`spec_decode_piece`]). The id must be in range and name no malformed
    /// byte-fallback piece ([`Tokenizer::try_decode_piece`] checks it).
    pub fn decode_piece(&self, token_id: usize) -> (r: String)
        requires
            spec_decode_piece(self@, token_id) is Some,
        ensures
            spec_decode_piece(self@, token_id) == Some(r@),
    {
        match self.try_decode_piece(token_id) {
            Some(text) => text,
            None => String::new(),
        }
    }

    /// The beginning-of-sequence token id.
    pub fn bos_id(&self) -> (r: usize)
        ensures
            r == self@.bos,
    {
        self.bos_token_id
    }

    /// The end-of-sequence token id.
    pub fn eos_id(&self) -> (r: usize)
        ensures
            r == self@.eos,
    {
        self.eos_token_id
    }
}

// ---------------------------------------------------------------------------
// Loading from GGUF metadata.
// ---------------------------------------------------------------------------

/// The metadata entries the tokenizer is read from.
#[derive(Debug, Clone, Copy, PartialEq, Eq, Structural)]
pub enum TokenizerKey {
    /// `tokenizer.ggml.tokens`: the piece of every id.
    Tokens,
    /// `tokenizer.ggml.merges`: the merge rules, `"left right"`, in priority order.
    Merges,
    /// `tokenizer.ggml.bos_token_id`.
    BosTokenId,
    /// `tokenizer.ggml.eos_token_id`.
    EosTokenId,
}

/// Why GGUF metadata does not describe a tokenizer.
#[derive(Debug, Clone, Copy, PartialEq, Eq, Structural)]
pub enum TokenizerError {
    /// The first entry with this key is missing or is not an array.
    MissingArray(TokenizerKey),
    /// The array under this key holds a value that is not a string.
    NonStringElement(TokenizerKey),
    /// A merge rule holds no space separating its two pieces.
    MalformedMerge,
    /// The first entry with this key is missing or is not a `u32`.
    MissingU32(TokenizerKey),
}

/// The metadata key of a [`TokenizerKey`].
pub open spec fn key_name(k: TokenizerKey) -> Seq<char> {
    match k {
        TokenizerKey::Tokens => "tokenizer.ggml.tokens"@,
        TokenizerKey::Merges => "tokenizer.ggml.merges"@,
        TokenizerKey::BosTokenId => "tokenizer.ggml.bos_token_id"@,
        TokenizerKey::EosTokenId => "tokenizer.ggml.eos_token_id"@,
    }
}

/// The strings of the array stored under `k`.
pub open spec fn spec_string_array(md: Seq<(Seq<char>, SpecValue)>, k: TokenizerKey) -> Result<
    Seq<Seq<char>>,
    TokenizerError,
> {
    match metadata_lookup(md, key_name(k)) {
        Some(SpecValue::Array(items)) => if forall|i: int| 0 <= i < items.len() ==> items[i] is Str {
            Ok(Seq::new(items.len(), |i: int| items[i]->Str_0))
        } else {
            Err(TokenizerError::NonStringElement(k))
        },
        _ => Err(TokenizerError::MissingArray(k)),
    }
}

/// The `u32` stored under `k`.
pub open spec fn spec_u32_entry(md: Seq<(Seq<char>, SpecValue)>, k: TokenizerKey) -> Result<
    u32,
    TokenizerError,
> {
    match metadata_lookup(md, key_name(k)) {
        Some(SpecValue::U32(n)) => Ok(n),
        _ => Err(TokenizerError::MissingU32(k)),
    }
}

/// The first index of `c` in `s`.
pub open spec fn first_index_of(s: Seq<char>, c: char) -> Option<int>
    decreases s.len(),
{
    if s.len() == 0 {
        None
    } else if s[0] == c {
        Some(0)
    } else {
        match first_index_of(s.drop_first(), c) {
            Some(k) => Some(k + 1),
            None => None,
        }
    }
}

/// A merge rule `"left right"` split at its first space.
pub open spec fn split_merge(entry: Seq<char>) -> Option<(Seq<char>, Seq<char>)> {
    match first_index_of(entry, ' ') {
        Some(k) => Some((entry.subrange(0, k), entry.subrange(k + 1, entry.len() as int))),
        None => None,
    }
}

/// Every merge entry split at its first space, or `None` when one holds no space.
pub open spec fn split_merges(entries: Seq<Seq<char>>) -> Option<Seq<(Seq<char>, Seq<char>)>> {
    if forall|i: int| 0 <= i < entries.len() ==> split_merge(entries[i]) is Some {
        Some(Seq::new(entries.len(), |i: int| split_merge(entries[i])->Some_0))
    } else {
        None
    }
}

/// The tokenizer described by GGUF metadata: pieces, merge rules, and the
/// BOS and EOS ids; the first problem met, in that order, otherwise.
pub open spec fn spec_load_tokenizer(md: Seq<(Seq<char>, SpecValue)>) -> Result<
    TokenizerModel,
    TokenizerError,
> {
    match spec_string_array(md, TokenizerKey::Tokens) {
        Err(e) => Err(e),
        Ok(vocab) => match spec_string_array(md, TokenizerKey::Merges) {
            Err(e) => Err(e),
            Ok(raw) => match split_merges(raw) {
                None => Err(TokenizerError::MalformedMerge),
                Some(merges) => match spec_u32_entry(md, TokenizerKey::BosTokenId) {
                    Err(e) => Err(e),
                    Ok(bos) => match spec_u32_entry(md, TokenizerKey::EosTokenId) {
                        Err(e) => Err(e),
                        Ok(eos) => Ok(
                            TokenizerModel { vocab, merges, bos: bos as usize, eos: eos as usize },
                        ),
                    },
                },
            },
        },
    }
}

impl TokenizerKey {
    /// The metadata key itself, e.g. `"tokenizer.ggml.tokens"`.
    pub fn as_str(self) -> (r: &'static str)
        ensures
            r@ == key_name(self),
    {
        match self {
            TokenizerKey::Tokens => "tokenizer.ggml.tokens",
            TokenizerKey::Merges => "tokenizer.ggml.merges",
            TokenizerKey::BosTokenId => "tokenizer.ggml.bos_token_id",
            TokenizerKey::EosTokenId => "tokenizer.ggml.eos_token_id",
        }
    }
}

fn string_array(file: &GgufFile, k: TokenizerKey) -> (r: Result<Vec<Vec<char>>, TokenizerError>)
    ensures
        match r {
            Ok(v) => spec_string_array(file@.metadata, k) == Ok::<
                Seq<Seq<char>>,
                TokenizerError,
            >(pieces_view(v@)),
            Err(e) => spec_string_array(file@.metadata, k) == Err::<Seq<Seq<char>>, TokenizerError>(
                e,
            ),
        },
{
    let found = file.find_metadata(k.as_str());
    let items = match found {
        Some(GgufValue::Array(items)) => items,
        _ => {
            return Err(TokenizerError::MissingArray(k));
        },
    };
    let ghost sitems = found.unwrap()@->Array_0;
    let mut out: Vec<Vec<char>> = Vec::new();
    let mut i: usize = 0;
    while i < items.len()
        invariant
            i <= items@.len(),
            metadata_lookup(file@.metadata, key_name(k)) == Some(SpecValue::Array(sitems)),
            sitems.len() == items@.len(),
            forall|j: int| 0 <= j < items@.len() ==> sitems[j] == items@[j]@,
            out@.len() == i,
            forall|j: int| 0 <= j < i ==> sitems[j] is Str,
            forall|j: int| 0 <= j < i ==> #[trigger] out@[j]@ == sitems[j]->Str_0,
        decreases items.len() - i,
    {
        match &items[i] {
            GgufValue::String(s) => {
                out.push(str_chars(s.as_str()));
            },
            _ => {
                proof {
                    assert(!(sitems[i as int] is Str));
                }
                return Err(TokenizerError::NonStringElement(k));
            },
        }
        i = i + 1;
    }
    proof {
        assert(pieces_view(out@) =~= Seq::new(sitems.len(), |j: int| sitems[j]->Str_0));
    }
    Ok(out)
}

fn u32_entry(file: &GgufFile, k: TokenizerKey) -> (r: Result<u32, TokenizerError>)
    ensures
        match r {
            Ok(n) => spec_u32_entry(file@.metadata, k) == Ok::<u32, TokenizerError>(n),
            Err(e) => spec_u32_entry(file@.metadata, k) == Err::<u32, TokenizerError>(e),
        },
{
    match file.find_metadata(k.as_str()) {
        Some(GgufValue::U32(n)) => Ok(*n),
        _ => Err(TokenizerError::MissingU32(k)),
    }
}

/// A merge rule split at its first space.
fn split_merge_exec(entry: &Vec<char>) -> (r: Option<(Vec<char>, Vec<char>)>)
    ensures
        match r {
            Some((l, rt)) => split_merge(entry@) == Some((l@, rt@)),
            None => split_merge(entry@) is None,
        },
{
    let mut k: usize = 0;
    while k < entry.len() && entry[k] != ' '
        invariant
            k <= entry@.len(),
            forall|j: int| 0 <= j < k ==> entry@[j] != ' ',
        decreases entry.len() - k,
    {
        k = k + 1;
    }
    proof {
        lemma_first_index_of(entry@, ' ', k as int);
    }
    if k == entry.len() {
        return None;
    }
    let mut left: Vec<char> = Vec::new();
    let mut i: usize = 0;
    while i < k
        invariant
            k < entry@.len(),
            i <= k,
            left@ == entry@.subrange(0, i as int),
        decreases k - i,
    {
        left.push(entry[i]);
        proof {
            assert(entry@.subrange(0, i + 1) =~= entry@.subrange(0, i as int).push(entry@[i as int]));
        }
        i = i + 1;
    }
    let mut right: Vec<char> = Vec::new();
    let mut j: usize = k + 1;
    while j < entry.len()
        invariant
            k < j <= entry@.len(),
            right@ == entry@.subrange(k + 1, j as int),
        decreases entry.len() - j,
    {
        right.push(entry[j]);
        proof {
            assert(entry@.subrange(k + 1, j + 1) =~= entry@.subrange(k + 1, j as int).push(
                entry@[j as int],
            ));
        }
        j = j + 1;
    }
    Some((left, right))
}

/// When `k` is the first position holding `c` (or the length, if none does),
/// that is what [`first_index_of`] says.
proof fn lemma_first_index_of(s: Seq<char>, c: char, k: int)
    requires
        0 <= k <= s.len(),
        forall|j: int| 0 <= j < k ==> s[j] != c,
        k < s.len() ==> s[k] == c,
    ensures
        first_index_of(s, c) == (if k < s.len() {
            Some(k)
        } else {
            None::<int>
        }),
    decreases s.len(),
{
    if s.len() > 0 && k > 0 {
        lemma_first_index_of(s.drop_first(), c, k - 1);
    }
}

/// Reads the tokenizer out of GGUF metadata ([`spec_load_tokenizer`]). The
/// metadata must describe a tokenizer ([`try_load_tokenizer`] checks it).
pub fn load_tokenizer(file: &GgufFile) -> (r: Tokenizer)
    requires
        spec_load_tokenizer(file@.metadata) is Ok,
    ensures
        spec_load_tokenizer(file@.metadata) == Ok::<TokenizerModel, TokenizerError>(r@),
{
    match try_load_tokenizer(file) {
        Ok(t) => t,
        Err(_) => Tokenizer {
            id_to_token: Vec::new(),
            merges: Vec::new(),
            bos_token_id: 0,
            eos_token_id: 0,
        },
    }
}

/// Reads the tokenizer out of GGUF metadata ([`spec_load_tokenizer`]), or
/// the first problem met: the check for [`load_tokenizer`].
pub fn try_load_tokenizer(file: &GgufFile) -> (r: Result<Tokenizer, TokenizerError>)
    ensures
        match r {
            Ok(t) => spec_load_tokenizer(file@.metadata) == Ok::<TokenizerModel, TokenizerError>(t@),
            Err(e) => spec_load_tokenizer(file@.metadata) == Err::<TokenizerModel, TokenizerError>(
                e,
            ),
        },
{
    let id_to_token = match string_array(file, TokenizerKey::Tokens) {
        Ok(v) => v,
        Err(e) => {
            return Err(e);
        },
    };
    let merges_raw = match string_array(file, TokenizerKey::Merges) {
        Ok(v) => v,
        Err(e) => {
            return Err(e);
        },
    };
    let ghost raw = pieces_view(merges_raw@);
    let mut merges: Vec<(Vec<char>, Vec<char>)> = Vec::new();
    let mut i: usize = 0;
    while i < merges_raw.len()
        invariant
            i <= merges_raw@.len(),
            raw == pieces_view(merges_raw@),
            spec_string_array(file@.metadata, TokenizerKey::Tokens) == Ok::<
                Seq<Seq<char>>,
                TokenizerError,
            >(pieces_view(id_to_token@)),
            spec_string_array(file@.metadata, TokenizerKey::Merges) == Ok::<
                Seq<Seq<char>>,
                TokenizerError,
            >(raw),
            merges@.len() == i,
            forall|j: int| 0 <= j < i ==> split_merge(#[trigger] raw[j]) is Some,
            forall|j: int|
                0 <= j < i ==> (#[trigger] merges@[j].0@, merges@[j].1@) == split_merge(
                    raw[j],
                )->Some_0,
        decreases merges_raw.len() - i,
    {
        proof {
            assert(raw[i as int] == merges_raw@[i as int]@);
        }
        match split_merge_exec(&merges_raw[i]) {
            Some(pair) => {
                merges.push(pair);
            },
            None => {
                return Err(TokenizerError::MalformedMerge);
            },
        }
        i = i + 1;
    }
    proof {
        assert(pairs_view(merges@) =~= split_merges(raw)->Some_0);
    }
    let bos = match u32_entry(file, TokenizerKey::BosTokenId) {
        Ok(n) => n,
        Err(e) => {
            return Err(e);
        },
    };
    let eos = match u32_entry(file, TokenizerKey::EosTokenId) {
        Ok(n) => n,
        Err(e) => {
            return Err(e);
        },
    };
    Ok(
        Tokenizer {
            id_to_token,
            merges,
            bos_token_id: bos as usize,
            eos_token_id: eos as usize,
        },
    )
}

// ---------------------------------------------------------------------------
// Laws of the tokenizer.
// ---------------------------------------------------------------------------

/// The text spelled by a sequence of pieces.
pub open spec fn concat_pieces(ps: Seq<Seq<char>>) -> Seq<char>
    decreases ps.len(),
{
    if ps.len() == 0 {
        seq![]
    } else {
        concat_pieces(ps.drop_last()) + ps.last()
    }
}

proof fn lemma_concat_pieces_append(a: Seq<Seq<char>>, b: Seq<Seq<char>>)
    ensures
        concat_pieces(a + b) == concat_pieces(a) + concat_pieces(b),
    decreases b.len(),
{
    if b.len() == 0 {
        assert(a + b =~= a);
        assert(concat_pieces(a) + seq![] =~= concat_pieces(a));
    } else {
        assert((a + b).drop_last() =~= a + b.drop_last());
        lemma_concat_pieces_append(a, b.drop_last());
        assert(concat_pieces(a) + concat_pieces(b.drop_last()) + b.last() =~= concat_pieces(a) + (
        concat_pieces(b.drop_last()) + b.last()));
    }
}

proof fn lemma_concat_pieces_single(x: Seq<char>)
    ensures
        concat_pieces(seq![x]) == x,
{
    assert(seq![x].drop_last() =~= Seq::<Seq<char>>::empty());
    assert(concat_pieces(Seq::<Seq<char>>::empty()) == Seq::<char>::empty());
    assert(seq![x].last() == x);
    assert(Seq::<char>::empty() + x =~= x);
}

proof fn lemma_merge_at_concat(ps: Seq<Seq<char>>, i: int)
    requires
        0 <= i && i + 1 < ps.len(),
    ensures
        concat_pieces(merge_at(ps, i)) == concat_pieces(ps),
{
    let pre = ps.subrange(0, i);
    let post = ps.subrange(i + 2, ps.len() as int);
    let two = seq![ps[i], ps[i + 1]];
    assert(ps =~= pre + two + post);
    lemma_concat_pieces_append(pre + two, post);
    lemma_concat_pieces_append(pre, two);
    lemma_concat_pieces_append(pre + seq![ps[i] + ps[i + 1]], post);
    lemma_concat_pieces_append(pre, seq![ps[i] + ps[i + 1]]);
    assert(two.drop_last() =~= seq![ps[i]]);
    lemma_concat_pieces_single(ps[i]);
    lemma_concat_pieces_single(ps[i] + ps[i + 1]);
    assert(concat_pieces(two) == ps[i] + ps[i + 1]);
}

proof fn lemma_best_merge_upto(merges: Seq<(Seq<char>, Seq<char>)>, ps: Seq<Seq<char>>, k: nat)
    requires
        k < ps.len(),
    ensures
        best_merge_upto(merges, ps, k) matches Some((i, r)) ==> {
            &&& 0 <= i < k
            &&& merge_rank(merges, ps[i], ps[i + 1]) == Some(r)
            &&& forall|j: int|
                0 <= j < k ==> (#[trigger] merge_rank(merges, ps[j], ps[j + 1]) matches Some(rj)
                    ==> r <= rj && (j < i ==> r < rj))
        },
        best_merge_upto(merges, ps, k) is None ==> forall|j: int|
            0 <= j < k ==> #[trigger] merge_rank(merges, ps[j], ps[j + 1]) is None,
    decreases k,
{
    if k > 0 {
        lemma_best_merge_upto(merges, ps, (k - 1) as nat);
    }
}

/// The merge that is applied next is that of the adjacent pair whose rule
/// comes first in the merge list, the leftmost such pair when several pairs
/// share that rule; when there is none, no adjacent pair has a rule.
pub proof fn lemma_best_merge_is_first_rule(merges: Seq<(Seq<char>, Seq<char>)>, ps: Seq<Seq<char>>)
    ensures
        best_merge(merges, ps) matches Some((i, r)) ==> {
            &&& 0 <= i && i + 1 < ps.len()
            &&& merge_rank(merges, ps[i], ps[i + 1]) == Some(r)
            &&& forall|j: int|
                0 <= j && j + 1 < ps.len() ==> (#[trigger] merge_rank(merges, ps[j], ps[j + 1])
                    matches Some(rj) ==> r <= rj && (j < i ==> r < rj))
        },
        best_merge(merges, ps) is None ==> forall|j: int|
            0 <= j && j + 1 < ps.len() ==> #[trigger] merge_rank(merges, ps[j], ps[j + 1]) is None,
{
    if ps.len() >= 2 {
        lemma_best_merge_upto(merges, ps, (ps.len() - 1) as nat);
    }
}

/// Merging never changes the text the pieces spell, and it stops only when
/// no merge rule applies to any adjacent pair of the result.
pub proof fn lemma_bpe_keeps_text(merges: Seq<(Seq<char>, Seq<char>)>, ps: Seq<Seq<char>>)
    ensures
        concat_pieces(bpe(merges, ps)) == concat_pieces(ps),
        forall|j: int|
            0 <= j && j + 1 < bpe(merges, ps).len() ==> #[trigger] merge_rank(
                merges,
                bpe(merges, ps)[j],
                bpe(merges, ps)[j + 1],
            ) is None,
    decreases ps.len(),
{
    lemma_best_merge_is_first_rule(merges, ps);
    match best_merge(merges, ps) {
        Some((i, _)) => {
            lemma_merge_at_concat(ps, i);
            lemma_bpe_keeps_text(merges, merge_at(ps, i));
        },
        None => {},
    }
}

proof fn lemma_piece_ids_spell(vocab: Seq<Seq<char>>, ps: Seq<Seq<char>>)
    requires
        vocab.len() <= usize::MAX,
        piece_ids(vocab, ps) is Some,
    ensures
        piece_ids(vocab, ps)->Some_0.len() == ps.len(),
        forall|i: int|
            0 <= i < ps.len() ==> {
                let id = #[trigger] piece_ids(vocab, ps)->Some_0[i];
                id < vocab.len() && vocab[id as int] == ps[i]
            },
    decreases ps.len(),
{
    if ps.len() > 0 {
        let pre = ps.drop_last();
        lemma_piece_ids_spell(vocab, pre);
        lemma_last_index_of(vocab, ps.last());
        let ids = piece_ids(vocab, ps)->Some_0;
        let pids = piece_ids(vocab, pre)->Some_0;
        assert forall|i: int| 0 <= i < ps.len() implies {
            let id = #[trigger] ids[i];
            id < vocab.len() && vocab[id as int] == ps[i]
        } by {
            if i < ps.len() - 1 {
                assert(ids[i] == pids[i]);
                assert(pre[i] == ps[i]);
            }
        }
    }
}

proof fn lemma_last_index_of<A>(s: Seq<A>, x: A)
    ensures
        last_index_of(s, x) matches Some(i) ==> 0 <= i < s.len() && s[i] == x,
        last_index_of(s, x) is None ==> !s.contains(x),
    decreases s.len(),
{
    if s.len() > 0 {
        lemma_last_index_of(s.drop_last(), x);
        if last_index_of(s, x) is None {
            assert forall|j: int| 0 <= j < s.len() implies s[j] != x by {
                if j < s.len() - 1 {
                    assert(s.drop_last()[j] == s[j]);
                }
            }
        }
    }
}

/// Every id that encoding returns names a vocabulary piece, and those pieces,
/// in order, spell the starting pieces of the marked text: merging adds and
/// drops nothing.
pub proof fn lemma_encode_spells_text(m: TokenizerModel, text: Seq<char>)
    requires
        m.vocab.len() <= usize::MAX,
        spec_encode(m, text) is Some,
    ensures
        ({
            let ids = spec_encode(m, text)->Some_0;
            &&& forall|i: int| 0 <= i < ids.len() ==> #[trigger] ids[i] < m.vocab.len()
            &&& concat_pieces(Seq::new(ids.len(), |i: int| m.vocab[ids[i] as int])) == concat_pieces(
                seed(m.vocab, normalize(text)),
            )
        }),
{
    let ps = encode_pieces(m, text);
    let ids = spec_encode(m, text)->Some_0;
    lemma_piece_ids_spell(m.vocab, ps);
    lemma_bpe_keeps_text(m.merges, seed(m.vocab, normalize(text)));
    assert(Seq::new(ids.len(), |i: int| m.vocab[ids[i] as int]) =~= ps);
}

proof fn lemma_seed_plain(vocab: Seq<Seq<char>>, cs: Seq<char>)
    requires
        forall|i: int|
            0 <= i < cs.len() ==> #[trigger] cs[i] != '\0' && last_index_of(vocab, seq![cs[i]])
                is Some,
    ensures
        concat_pieces(seed(vocab, cs)) == cs,
    decreases cs.len(),
{
    if cs.len() > 0 {
        let c = cs.last();
        assert(cs[cs.len() - 1] == c);
        lemma_seed_plain(vocab, cs.drop_last());
        lemma_concat_pieces_append(seed(vocab, cs.drop_last()), seq![seq![c]]);
        lemma_concat_pieces_single(seq![c]);
        assert(cs.drop_last() + seq![c] =~= cs);
    }
}

/// The raw bytes of ids that are neither BOS nor EOS and name pieces without
/// the byte-fallback shape are the UTF-8 encoding of the text those pieces spell.
proof fn lemma_decode_bytes_plain(m: TokenizerModel, ids: Seq<usize>)
    requires
        forall|i: int|
            0 <= i < ids.len() ==> {
                &&& #[trigger] ids[i] < m.vocab.len()
                &&& ids[i] != m.bos
                &&& ids[i] != m.eos
                &&& !has_fallback_shape(m.vocab[ids[i] as int])
            },
    ensures
        decode_bytes(m, ids) == Some(
            encode_utf8(concat_pieces(Seq::new(ids.len(), |i: int| m.vocab[ids[i] as int]))),
        ),
    decreases ids.len(),
{
    let ps = Seq::new(ids.len(), |i: int| m.vocab[ids[i] as int]);
    if ids.len() == 0 {
        assert(concat_pieces(ps) =~= Seq::<char>::empty());
    } else {
        let pre = ids.drop_last();
        assert forall|i: int| 0 <= i < pre.len() implies {
            &&& #[trigger] pre[i] < m.vocab.len()
            &&& pre[i] != m.bos
            &&& pre[i] != m.eos
            &&& !has_fallback_shape(m.vocab[pre[i] as int])
        } by {
            assert(pre[i] == ids[i]);
        }
        lemma_decode_bytes_plain(m, pre);
        let pps = Seq::new(pre.len(), |i: int| m.vocab[pre[i] as int]);
        assert(ps.drop_last() =~= pps);
        assert(ids[ids.len() - 1] == ids.last());
        crate::text::lemma_encode_utf8_concat(concat_pieces(pps), ps.last());
    }
}

/// Decoding what encoding returns gives the text back, with its leading
/// whitespace removed and any U+2581 in it turned into a space, provided the
/// text is spelled by single-character vocabulary pieces (no byte fallback,
/// no NUL; a space counts as the marker U+2581, which must be a piece),
/// and the ids returned are neither BOS nor EOS and do not look like
/// byte-fallback pieces. For a text that starts with a non-whitespace
/// character and holds no U+2581, that is the text itself.
pub proof fn lemma_decode_encode_roundtrip(m: TokenizerModel, text: Seq<char>)
    requires
        m.vocab.len() <= usize::MAX,
        spec_encode(m, text) is Some,
        forall|i: int|
            0 <= i < text.len() ==> #[trigger] text[i] != '\0' && (text[i] == ' ' || last_index_of(
                m.vocab,
                seq![text[i]],
            ) is Some),
        last_index_of(m.vocab, seq![SPACE_MARKER]) is Some,
        forall|i: int|
            0 <= i < spec_encode(m, text)->Some_0.len() ==> {
                let id = #[trigger] spec_encode(m, text)->Some_0[i];
                &&& id != m.bos
                &&& id != m.eos
                &&& !has_fallback_shape(m.vocab[id as int])
            },
    ensures
        spec_decode(m, spec_encode(m, text)->Some_0) == Some(trim_start(unmark(normalize(text)))),
        (forall|i: int| 0 <= i < text.len() ==> text[i] != SPACE_MARKER) && (text.len() == 0
            || !is_whitespace(text[0])) ==> spec_decode(m, spec_encode(m, text)->Some_0) == Some(
            text,
        ),
{
    let ids = spec_encode(m, text)->Some_0;
    let nt = normalize(text);
    lemma_encode_spells_text(m, text);
    assert forall|i: int|
        0 <= i < nt.len() implies #[trigger] nt[i] != '\0' && last_index_of(m.vocab, seq![nt[i]])
        is Some by {
        if i > 0 {
            assert(nt[i] == (if text[i - 1] == ' ' {
                SPACE_MARKER
            } else {
                text[i - 1]
            }));
        }
    }
    lemma_seed_plain(m.vocab, nt);
    lemma_decode_bytes_plain(m, ids);
    vstd::utf8::encode_utf8_valid_utf8(nt);
    vstd::utf8::encode_utf8_decode_utf8(nt);
    if (forall|i: int| 0 <= i < text.len() ==> text[i] != SPACE_MARKER) && (text.len() == 0
        || !is_whitespace(text[0])) {
        let u = unmark(nt);
        assert(u.drop_first() =~= text);
        assert(trim_start(u) == trim_start(u.drop_first()));
    }
}

proof fn lemma_decode_bytes_skip(m: TokenizerModel, a: Seq<usize>, t: usize, b: Seq<usize>)
    requires
        t == m.bos || t == m.eos,
    ensures
        decode_bytes(m, a + seq![t] + b) == decode_bytes(m, a + b),
    decreases b.len(),
{
    if b.len() == 0 {
        assert((a + seq![t] + b).drop_last() =~= a);
        assert(a + b =~= a);
    } else {
        lemma_decode_bytes_skip(m, a, t, b.drop_last());
        assert((a + seq![t] + b).drop_last() =~= a + seq![t] + b.drop_last());
        assert((a + b).drop_last() =~= a + b.drop_last());
        assert((a + seq![t] + b).last() == b.last());
        assert((a + b).last() == b.last());
    }
}

/// Special tokens leave no trace in decoded text: removing a BOS or EOS id
/// from anywhere in a token sequence does not change what it decodes to.
pub proof fn lemma_decode_skips_special_tokens(m: TokenizerModel, a: Seq<usize>, t: usize, b: Seq<usize>)
    requires
        t == m.bos || t == m.eos,
    ensures
        spec_decode(m, a + seq![t] + b) == spec_decode(m, a + b),
{
    lemma_decode_bytes_skip(m, a, t, b);
}

/// Whether an id is neither BOS nor EOS.
pub open spec fn not_special(m: TokenizerModel) -> spec_fn(usize) -> bool {
    |id: usize| id != m.bos && id != m.eos
}

proof fn lemma_decode_bytes_filter(m: TokenizerModel, ids: Seq<usize>)
    ensures
        decode_bytes(m, ids) == decode_bytes(m, ids.filter(not_special(m))),
    decreases ids.len(),
{
    reveal(Seq::filter);
    if ids.len() > 0 {
        lemma_decode_bytes_filter(m, ids.drop_last());
        let f = ids.filter(not_special(m));
        let sub = ids.drop_last().filter(not_special(m));
        let id = ids.last();
        if id != m.bos && id != m.eos {
            assert(f == sub.push(id));
            assert(f.drop_last() =~= sub);
            assert(f.last() == id);
        } else {
            assert(f == sub);
        }
    } else {
        assert(ids.filter(not_special(m)) == ids);
    }
}

/// BOS and EOS are control signals and never reach the text: decoding a
/// token sequence gives what decoding it with every BOS and EOS id dropped
/// gives, however many there are.
pub proof fn lemma_decode_ignores_special_tokens(m: TokenizerModel, ids: Seq<usize>)
    ensures
        spec_decode(m, ids) == spec_decode(m, ids.filter(not_special(m))),
{
    lemma_decode_bytes_filter(m, ids);
}

/// Every piece of `ps` is in the vocabulary.
pub open spec fn all_in_vocab(vocab: Seq<Seq<char>>, ps: Seq<Seq<char>>) -> bool {
    forall|i: int| 0 <= i < ps.len() ==> vocab.contains(#[trigger] ps[i])
}

/// A vocabulary closed under what encoding can produce: every byte has its
/// fallback piece, every merge rule's result is a piece, and the empty piece
/// is there whenever the NUL character is.
pub open spec fn closed_vocab(m: TokenizerModel) -> bool {
    &&& forall|b: u8| m.vocab.contains(#[trigger] fallback_piece(b))
    &&& forall|k: int| 0 <= k < m.merges.len() ==> m.vocab.contains(#[trigger] m.merges[k].0 + m.merges[k].1)
    &&& m.vocab.contains(seq!['\0']) ==> m.vocab.contains(Seq::<char>::empty())
}

proof fn lemma_seed_in_vocab(m: TokenizerModel, cs: Seq<char>)
    requires
        closed_vocab(m),
    ensures
        all_in_vocab(m.vocab, seed(m.vocab, cs)),
    decreases cs.len(),
{
    if cs.len() > 0 {
        lemma_seed_in_vocab(m, cs.drop_last());
        let c = cs.last();
        lemma_last_index_of(m.vocab, seq![c]);
        let pre = seed(m.vocab, cs.drop_last());
        let sc = seed_char(m.vocab, c);
        assert(all_in_vocab(m.vocab, sc)) by {
            if last_index_of(m.vocab, seq![c]) is Some {
                assert(m.vocab.contains(seq![c]));
            } else {
                assert forall|i: int| 0 <= i < sc.len() implies m.vocab.contains(#[trigger] sc[i]) by {
                    let bytes = encode_utf8(seq![c]);
                    assert(sc[i] == fallback_piece(bytes[i]));
                }
            }
        }
        assert forall|i: int| 0 <= i < (pre + sc).len() implies m.vocab.contains(#[trigger] (pre + sc)[i]) by {
            if i < pre.len() {
                assert((pre + sc)[i] == pre[i]);
            } else {
                assert((pre + sc)[i] == sc[i - pre.len()]);
            }
        }
    }
}

proof fn lemma_bpe_in_vocab(m: TokenizerModel, ps: Seq<Seq<char>>)
    requires
        closed_vocab(m),
        all_in_vocab(m.vocab, ps),
    ensures
        all_in_vocab(m.vocab, bpe(m.merges, ps)),
    decreases ps.len(),
{
    lemma_best_merge_is_first_rule(m.merges, ps);
    match best_merge(m.merges, ps) {
        Some((i, r)) => {
            lemma_last_index_of(m.merges, (ps[i], ps[i + 1]));
            assert(m.merges[r] == (ps[i], ps[i + 1]));
            assert(m.vocab.contains(m.merges[r].0 + m.merges[r].1));
            let next = merge_at(ps, i);
            assert forall|j: int| 0 <= j < next.len() implies m.vocab.contains(#[trigger] next[j]) by {
                if j < i {
                    assert(next[j] == ps[j]);
                } else if j == i {
                    assert(next[j] == ps[i] + ps[i + 1]);
                } else {
                    assert(next[j] == ps[j + 1]);
                }
            }
            lemma_bpe_in_vocab(m, next);
        },
        None => {},
    }
}

proof fn lemma_piece_ids_found(vocab: Seq<Seq<char>>, ps: Seq<Seq<char>>)
    requires
        all_in_vocab(vocab, ps),
    ensures
        piece_ids(vocab, ps) is Some,
    decreases ps.len(),
{
    if ps.len() > 0 {
        assert(all_in_vocab(vocab, ps.drop_last())) by {
            assert forall|i: int| 0 <= i < ps.drop_last().len() implies vocab.contains(#[trigger] ps.drop_last()[i]) by {
                assert(ps.drop_last()[i] == ps[i]);
            }
        }
        lemma_piece_ids_found(vocab, ps.drop_last());
        assert(vocab.contains(ps[ps.len() - 1]));
        lemma_last_index_of(vocab, ps.last());
    }
}

/// Byte fallback makes encoding total: with a vocabulary that holds every
/// byte's fallback piece and every merge result (and the empty piece when it
/// holds NUL), every text encodes.
pub proof fn lemma_encode_succeeds(m: TokenizerModel, text: Seq<char>)
    requires
        closed_vocab(m),
    ensures
        spec_encode(m, text) is Some,
{
    lemma_seed_in_vocab(m, normalize(text));
    lemma_bpe_in_vocab(m, seed(m.vocab, normalize(text)));
    lemma_piece_ids_found(m.vocab, encode_pieces(m, text));
}
/// The text a client sees when tokens are shown one at a time: each token's
/// display text ([`spec_decode_piece`]), in order; `None` when one has none.
pub open spec fn streamed_text(m: TokenizerModel, ids: Seq<usize>) -> Option<Seq<char>>
    decreases ids.len(),
{
    if ids.len() == 0 {
        Some(seq![])
    } else {
        match (streamed_text(m, ids.drop_last()), spec_decode_piece(m, ids.last())) {
            (Some(a), Some(b)) => Some(a + b),
            _ => None,
        }
    }
}

/// The characters of the pieces of `ids`, special tokens left out.
spec fn plain_text(m: TokenizerModel, ids: Seq<usize>) -> Seq<char>
    decreases ids.len(),
{
    if ids.len() == 0 {
        seq![]
    } else {
        let id = ids.last();
        plain_text(m, ids.drop_last()) + (if id == m.bos || id == m.eos {
            Seq::<char>::empty()
        } else {
            m.vocab[id as int]
        })
    }
}

proof fn lemma_unmark_concat(a: Seq<char>, b: Seq<char>)
    ensures
        unmark(a + b) == unmark(a) + unmark(b),
{
    assert(unmark(a + b) =~= unmark(a) + unmark(b));
}

proof fn lemma_plain_pieces(m: TokenizerModel, ids: Seq<usize>)
    requires
        forall|i: int|
            0 <= i < ids.len() ==> {
                let id = #[trigger] ids[i];
                id == m.bos || id == m.eos || (id < m.vocab.len() && !has_fallback_shape(
                    m.vocab[id as int],
                ))
            },
    ensures
        decode_bytes(m, ids) == Some(encode_utf8(plain_text(m, ids))),
        streamed_text(m, ids) == Some(unmark(plain_text(m, ids))),
    decreases ids.len(),
{
    if ids.len() == 0 {
        assert(unmark(Seq::<char>::empty()) =~= Seq::<char>::empty());
    } else {
        let pre = ids.drop_last();
        assert forall|i: int| 0 <= i < pre.len() implies {
            let id = #[trigger] pre[i];
            id == m.bos || id == m.eos || (id < m.vocab.len() && !has_fallback_shape(
                m.vocab[id as int],
            ))
        } by {
            assert(pre[i] == ids[i]);
        }
        lemma_plain_pieces(m, pre);
        let id = ids.last();
        assert(ids[ids.len() - 1] == id);
        let piece = if id == m.bos || id == m.eos {
            Seq::<char>::empty()
        } else {
            m.vocab[id as int]
        };
        crate::text::lemma_encode_utf8_concat(plain_text(m, pre), piece);
        lemma_unmark_concat(plain_text(m, pre), piece);
        if id == m.bos || id == m.eos {
            assert(encode_utf8(Seq::<char>::empty()) =~= Seq::<u8>::empty());
            assert(unmark(Seq::<char>::empty()) =~= Seq::<char>::empty());
            assert(encode_utf8(plain_text(m, pre)) + Seq::<u8>::empty() =~= encode_utf8(
                plain_text(m, pre),
            ));
            assert(unmark(plain_text(m, pre)) + Seq::<char>::empty() =~= unmark(
                plain_text(m, pre),
            ));
        }
    }
}

/// Showing tokens one at a time gives the text that decoding the whole
/// sequence gives, but for the leading whitespace that whole-sequence
/// decoding trims, as long as no token is a byte-fallback piece (a lone byte
/// of a multi-byte character shows as U+FFFD on its own).
pub proof fn lemma_streamed_text_matches_decode(m: TokenizerModel, ids: Seq<usize>)
    requires
        forall|i: int|
            0 <= i < ids.len() ==> {
                let id = #[trigger] ids[i];
                id == m.bos || id == m.eos || (id < m.vocab.len() && !has_fallback_shape(
                    m.vocab[id as int],
                ))
            },
    ensures
        streamed_text(m, ids) matches Some(s) && spec_decode(m, ids) == Some(trim_start(s)),
{
    lemma_plain_pieces(m, ids);
    let t = plain_text(m, ids);
    vstd::utf8::encode_utf8_valid_utf8(t);
    vstd::utf8::encode_utf8_decode_utf8(t);
}
// ---------------------------------------------------------------------------
// The round trip through byte-fallback pieces.
// ---------------------------------------------------------------------------

/// Whether `p` is the fallback piece of some byte.
pub open spec fn is_byte_piece(p: Seq<char>) -> bool {
    exists|b: u8| p == #[trigger] fallback_piece(b)
}

/// No merge rule involves byte pieces: neither of its sides is the fallback
/// piece of a byte, and the piece it makes does not start with `<0x` and end
/// with `>`.
pub open spec fn merges_avoid_byte_pieces(merges: Seq<(Seq<char>, Seq<char>)>) -> bool {
    forall|k: int|
        0 <= k < merges.len() ==> {
            &&& !is_byte_piece(#[trigger] merges[k].0)
            &&& !is_byte_piece(merges[k].1)
            &&& !has_fallback_shape(merges[k].0 + merges[k].1)
        }
}

/// Every piece is a byte piece or does not have the fallback shape.
spec fn byte_or_plain(ps: Seq<Seq<char>>) -> bool {
    forall|i: int| 0 <= i < ps.len() ==> is_byte_piece(#[trigger] ps[i]) || !has_fallback_shape(ps[i])
}

/// Every piece stands for some bytes ([`piece_bytes`] is not `None`).
spec fn all_decodable(ps: Seq<Seq<char>>) -> bool {
    forall|i: int| 0 <= i < ps.len() ==> #[trigger] piece_bytes(ps[i]) is Some
}

/// The bytes the pieces stand for, in order.
spec fn pieces_raw(ps: Seq<Seq<char>>) -> Seq<u8>
    decreases ps.len(),
{
    if ps.len() == 0 {
        seq![]
    } else {
        pieces_raw(ps.drop_last()) + piece_bytes(ps.last())->Some_0
    }
}

proof fn lemma_pieces_raw_append(a: Seq<Seq<char>>, b: Seq<Seq<char>>)
    ensures
        pieces_raw(a + b) == pieces_raw(a) + pieces_raw(b),
    decreases b.len(),
{
    if b.len() == 0 {
        assert(a + b =~= a);
        assert(pieces_raw(a) + seq![] =~= pieces_raw(a));
    } else {
        assert((a + b).drop_last() =~= a + b.drop_last());
        lemma_pieces_raw_append(a, b.drop_last());
        assert(pieces_raw(a) + pieces_raw(b.drop_last()) + piece_bytes(b.last())->Some_0 =~= pieces_raw(a)
            + (pieces_raw(b.drop_last()) + piece_bytes(b.last())->Some_0));
    }
}

proof fn lemma_pieces_raw_single(x: Seq<char>)
    ensures
        pieces_raw(seq![x]) == piece_bytes(x)->Some_0,
{
    assert(seq![x].drop_last() =~= Seq::<Seq<char>>::empty());
    assert(pieces_raw(seq![x].drop_last()) =~= Seq::<u8>::empty());
    assert(seq![x].last() == x);
    assert(Seq::<u8>::empty() + piece_bytes(x)->Some_0 =~= piece_bytes(x)->Some_0);
}

proof fn lemma_hex_digit_round_trip(d: int)
    requires
        0 <= d < 16,
    ensures
        hex_digit_value(hex_digits()[d]) == Some(d),
        hex_digits()[d] != '+',
{
    let h = hex_digits();
    assert(h[0] == '0' && h[1] == '1' && h[2] == '2' && h[3] == '3');
    assert(h[4] == '4' && h[5] == '5' && h[6] == '6' && h[7] == '7');
    assert(h[8] == '8' && h[9] == '9' && h[10] == 'A' && h[11] == 'B');
    assert(h[12] == 'C' && h[13] == 'D' && h[14] == 'E' && h[15] == 'F');
}

/// A byte's fallback piece has the fallback shape and stands for that byte.
proof fn lemma_fallback_piece_bytes(b: u8)
    ensures
        has_fallback_shape(fallback_piece(b)),
        piece_bytes(fallback_piece(b)) == Some(seq![b]),
{
    let p = fallback_piece(b);
    let hi = (b / 16) as int;
    let lo = (b % 16) as int;
    lemma_hex_digit_round_trip(hi);
    lemma_hex_digit_round_trip(lo);
    let ds = fallback_digits(p);
    assert(ds =~= seq![hex_digits()[hi], hex_digits()[lo]]);
    assert(ds.drop_last() =~= seq![hex_digits()[hi]]);
    let one = ds.drop_last();
    assert(one.drop_last() =~= Seq::<char>::empty());
    assert(hex_value(one.drop_last()) == Some(0int));
    assert(one.last() == hex_digits()[hi]);
    assert(hex_value(one) == Some(hi));
    assert(ds.last() == hex_digits()[lo]);
    assert(hex_value(ds) == Some(hi * 16 + lo));
    assert(hi * 16 + lo == b);
}

proof fn lemma_fallback_pieces_raw(bs: Seq<u8>)
    ensures
        all_decodable(fallback_pieces(bs)),
        byte_or_plain(fallback_pieces(bs)),
        pieces_raw(fallback_pieces(bs)) == bs,
    decreases bs.len(),
{
    let ps = fallback_pieces(bs);
    assert forall|i: int| 0 <= i < ps.len() implies #[trigger] piece_bytes(ps[i]) is Some by {
        lemma_fallback_piece_bytes(bs[i]);
    }
    assert forall|i: int| 0 <= i < ps.len() implies is_byte_piece(#[trigger] ps[i]) by {
        assert(ps[i] == fallback_piece(bs[i]));
    }
    if bs.len() > 0 {
        lemma_fallback_pieces_raw(bs.drop_last());
        assert(ps.drop_last() =~= fallback_pieces(bs.drop_last()));
        lemma_fallback_piece_bytes(bs.last());
        assert(ps.last() == fallback_piece(bs.last()));
        assert(bs.drop_last() + seq![bs.last()] =~= bs);
    } else {
        assert(bs =~= Seq::<u8>::empty());
    }
}

/// The starting pieces of a text without NUL stand for its UTF-8 bytes.
proof fn lemma_seed_raw(vocab: Seq<Seq<char>>, cs: Seq<char>)
    requires
        forall|i: int| 0 <= i < cs.len() ==> #[trigger] cs[i] != '\0',
    ensures
        all_decodable(seed(vocab, cs)),
        byte_or_plain(seed(vocab, cs)),
        pieces_raw(seed(vocab, cs)) == encode_utf8(cs),
    decreases cs.len(),
{
    if cs.len() == 0 {
        assert(encode_utf8(cs) =~= Seq::<u8>::empty());
    } else {
        let c = cs.last();
        assert(cs[cs.len() - 1] == c);
        let pre = seed(vocab, cs.drop_last());
        let sc = seed_char(vocab, c);
        lemma_seed_raw(vocab, cs.drop_last());
        if last_index_of(vocab, seq![c]) is Some {
            assert(!has_fallback_shape(seq![c]));
            lemma_pieces_raw_single(seq![c]);
        } else {
            lemma_fallback_pieces_raw(encode_utf8(seq![c]));
        }
        assert(all_decodable(sc));
        assert(byte_or_plain(sc));
        lemma_pieces_raw_append(pre, sc);
        assert forall|i: int| 0 <= i < (pre + sc).len() implies is_byte_piece(#[trigger] (pre + sc)[i])
            || !has_fallback_shape((pre + sc)[i]) by {
            if i < pre.len() {
                assert((pre + sc)[i] == pre[i]);
            } else {
                assert((pre + sc)[i] == sc[i - pre.len()]);
            }
        }
        assert forall|i: int| 0 <= i < (pre + sc).len() implies #[trigger] piece_bytes((pre + sc)[i]) is Some by {
            if i < pre.len() {
                assert((pre + sc)[i] == pre[i]);
            } else {
                assert((pre + sc)[i] == sc[i - pre.len()]);
            }
        }
        crate::text::lemma_encode_utf8_concat(cs.drop_last(), seq![c]);
        assert(cs.drop_last() + seq![c] =~= cs);
    }
}

/// Merging two pieces without the fallback shape into a piece without it
/// keeps the bytes the pieces stand for.
proof fn lemma_merge_raw(ps: Seq<Seq<char>>, i: int)
    requires
        0 <= i && i + 1 < ps.len(),
        all_decodable(ps),
        byte_or_plain(ps),
        !has_fallback_shape(ps[i]),
        !has_fallback_shape(ps[i + 1]),
        !has_fallback_shape(ps[i] + ps[i + 1]),
    ensures
        all_decodable(merge_at(ps, i)),
        byte_or_plain(merge_at(ps, i)),
        pieces_raw(merge_at(ps, i)) == pieces_raw(ps),
{
    let pre = ps.subrange(0, i);
    let post = ps.subrange(i + 2, ps.len() as int);
    let two = seq![ps[i], ps[i + 1]];
    let one = seq![ps[i] + ps[i + 1]];
    assert(ps =~= pre + two + post);
    assert(merge_at(ps, i) =~= pre + one + post);
    lemma_pieces_raw_append(pre + two, post);
    lemma_pieces_raw_append(pre, two);
    lemma_pieces_raw_append(pre + one, post);
    lemma_pieces_raw_append(pre, one);
    assert(two.drop_last() =~= seq![ps[i]]);
    lemma_pieces_raw_single(ps[i]);
    lemma_pieces_raw_single(ps[i] + ps[i + 1]);
    crate::text::lemma_encode_utf8_concat(ps[i], ps[i + 1]);
    assert(pieces_raw(two) == encode_utf8(ps[i]) + encode_utf8(ps[i + 1]));
    let m = merge_at(ps, i);
    assert forall|j: int| 0 <= j < m.len() implies #[trigger] piece_bytes(m[j]) is Some by {
        if j < i {
            assert(m[j] == ps[j]);
        } else if j > i {
            assert(m[j] == ps[j + 1]);
        }
    }
    assert forall|j: int| 0 <= j < m.len() implies is_byte_piece(#[trigger] m[j]) || !has_fallback_shape(
        m[j],
    ) by {
        if j < i {
            assert(m[j] == ps[j]);
        } else if j > i {
            assert(m[j] == ps[j + 1]);
        }
    }
}

proof fn lemma_bpe_raw(merges: Seq<(Seq<char>, Seq<char>)>, ps: Seq<Seq<char>>)
    requires
        merges_avoid_byte_pieces(merges),
        all_decodable(ps),
        byte_or_plain(ps),
    ensures
        all_decodable(bpe(merges, ps)),
        byte_or_plain(bpe(merges, ps)),
        pieces_raw(bpe(merges, ps)) == pieces_raw(ps),
    decreases ps.len(),
{
    lemma_best_merge_is_first_rule(merges, ps);
    match best_merge(merges, ps) {
        Some((i, r)) => {
            lemma_last_index_of(merges, (ps[i], ps[i + 1]));
            assert(merges[r] == (ps[i], ps[i + 1]));
            assert(!is_byte_piece(merges[r].0) && !is_byte_piece(merges[r].1));
            assert(is_byte_piece(ps[i]) || !has_fallback_shape(ps[i]));
            assert(is_byte_piece(ps[i + 1]) || !has_fallback_shape(ps[i + 1]));
            lemma_merge_raw(ps, i);
            lemma_bpe_raw(merges, merge_at(ps, i));
        },
        None => {},
    }
}

proof fn lemma_decode_bytes_raw(m: TokenizerModel, ids: Seq<usize>)
    requires
        forall|i: int|
            0 <= i < ids.len() ==> {
                &&& #[trigger] ids[i] < m.vocab.len()
                &&& ids[i] != m.bos
                &&& ids[i] != m.eos
            },
        all_decodable(Seq::new(ids.len(), |i: int| m.vocab[ids[i] as int])),
    ensures
        decode_bytes(m, ids) == Some(pieces_raw(Seq::new(ids.len(), |i: int| m.vocab[ids[i] as int]))),
    decreases ids.len(),
{
    let ps = Seq::new(ids.len(), |i: int| m.vocab[ids[i] as int]);
    if ids.len() > 0 {
        let pre = ids.drop_last();
        let pps = Seq::new(pre.len(), |i: int| m.vocab[pre[i] as int]);
        assert(ps.drop_last() =~= pps);
        assert forall|i: int| 0 <= i < pre.len() implies {
            &&& #[trigger] pre[i] < m.vocab.len()
            &&& pre[i] != m.bos
            &&& pre[i] != m.eos
        } by {
            assert(pre[i] == ids[i]);
        }
        assert forall|i: int| 0 <= i < pps.len() implies #[trigger] piece_bytes(pps[i]) is Some by {
            assert(pps[i] == ps[i]);
        }
        lemma_decode_bytes_raw(m, pre);
        assert(ids[ids.len() - 1] == ids.last());
        assert(ps[ps.len() - 1] == ps.last());
    }
}

/// Decoding what encoding returns gives the text back, with its leading
/// whitespace removed and any U+2581 in it turned into a space, for any
/// text without NUL, byte fallback included: a character that is not a
/// piece is encoded as the fallback pieces of its UTF-8 bytes, which decode
/// to those bytes. It asks that no merge rule have a byte piece as a side
/// or make a piece of the fallback shape ([`merges_avoid_byte_pieces`]), and
/// that no id returned be BOS or EOS. For a text that holds no U+2581 that
/// is the text without its leading whitespace, and the text itself when it
/// starts with a non-whitespace character.
/// [`lemma_encode_succeeds`] gives when encoding succeeds.
pub proof fn lemma_decode_encode_roundtrip_with_fallback(m: TokenizerModel, text: Seq<char>)
    requires
        m.vocab.len() <= usize::MAX,
        spec_encode(m, text) is Some,
        forall|i: int| 0 <= i < text.len() ==> #[trigger] text[i] != '\0',
        merges_avoid_byte_pieces(m.merges),
        forall|i: int|
            0 <= i < spec_encode(m, text)->Some_0.len() ==> {
                let id = #[trigger] spec_encode(m, text)->Some_0[i];
                &&& id != m.bos
                &&& id != m.eos
            },
    ensures
        spec_decode(m, spec_encode(m, text)->Some_0) == Some(trim_start(unmark(normalize(text)))),
        (forall|i: int| 0 <= i < text.len() ==> text[i] != SPACE_MARKER) ==> spec_decode(
            m,
            spec_encode(m, text)->Some_0,
        ) == Some(trim_start(text)),
        (forall|i: int| 0 <= i < text.len() ==> text[i] != SPACE_MARKER) && (text.len() == 0
            || !is_whitespace(text[0])) ==> spec_decode(m, spec_encode(m, text)->Some_0) == Some(
            text,
        ),
{
    let ids = spec_encode(m, text)->Some_0;
    let nt = normalize(text);
    let ps = encode_pieces(m, text);
    assert forall|i: int| 0 <= i < nt.len() implies #[trigger] nt[i] != '\0' by {
        if i > 0 {
            assert(nt[i] == (if text[i - 1] == ' ' {
                SPACE_MARKER
            } else {
                text[i - 1]
            }));
        }
    }
    lemma_seed_raw(m.vocab, nt);
    lemma_bpe_raw(m.merges, seed(m.vocab, nt));
    lemma_piece_ids_spell(m.vocab, ps);
    assert(Seq::new(ids.len(), |i: int| m.vocab[ids[i] as int]) =~= ps);
    lemma_decode_bytes_raw(m, ids);
    vstd::utf8::encode_utf8_valid_utf8(nt);
    vstd::utf8::encode_utf8_decode_utf8(nt);
    if forall|i: int| 0 <= i < text.len() ==> text[i] != SPACE_MARKER {
        let u = unmark(nt);
        assert(u.drop_first() =~= text);
        assert(trim_start(u) == trim_start(u.drop_first()));
    }
}
} // verus!
