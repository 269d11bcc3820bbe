//! Byte-level helpers: splitting at a separator and comparing byte strings.
use vstd::prelude::*;
use vstd::slice::slice_subrange;
use vstd::string::StringSliceAdditionalSpecFns;
use vstd::utf8::{
    decode_utf8, encode_utf8_decode_utf8, is_char_boundary_iff_not_is_continuation_byte,
    pop_first_scalar, valid_utf8, valid_utf8_split,
};

verus! {

/// A half-open range `start..end` of positions in a byte string.
#[derive(Clone, Copy, Debug)]
pub struct Span {
    pub start: usize,
    pub end: usize,
}

/// The pieces of `s` between occurrences of `sep`, in order. A string without
/// `sep` is one piece; `n` separators always give `n + 1` pieces, some of them
/// possibly empty.
pub open spec fn split(s: Seq<u8>, sep: u8) -> Seq<Seq<u8>>
    decreases s.len(),
{
    if s.len() == 0 {
        seq![Seq::<u8>::empty()]
    } else {
        let before = split(s.drop_last(), sep);
        if s.last() == sep {
            before.push(Seq::<u8>::empty())
        } else {
            before.update(before.len() - 1, before.last().push(s.last()))
        }
    }
}

/// Where piece `k` starts in the string that was split: behind the pieces
/// before it and one separator for each of them.
pub open spec fn piece_start(pieces: Seq<Seq<u8>>, k: int) -> int
    decreases k,
{
    if k <= 0 {
        0
    } else {
        piece_start(pieces, k - 1) + pieces[k - 1].len() + 1
    }
}

/// Where a piece starts depends on the pieces before it alone.
pub proof fn lemma_piece_start_same(p: Seq<Seq<u8>>, q: Seq<Seq<u8>>, k: int)
    requires
        0 <= k <= p.len(),
        k <= q.len(),
        forall|j: int| 0 <= j < k ==> p[j] == q[j],
    ensures
        piece_start(p, k) == piece_start(q, k),
    decreases k,
{
    if k > 0 {
        lemma_piece_start_same(p, q, k - 1);
    }
}

/// The pieces joined again, with `sep` between neighbours.
pub open spec fn join(pieces: Seq<Seq<u8>>, sep: u8) -> Seq<u8>
    decreases pieces.len(),
{
    if pieces.len() == 0 {
        Seq::<u8>::empty()
    } else if pieces.len() == 1 {
        pieces[0]
    } else {
        join(pieces.drop_last(), sep).push(sep) + pieces.last()
    }
}

/// `s` holds no byte equal to `b`.
pub open spec fn free_of(s: Seq<u8>, b: u8) -> bool {
    forall|i: int| 0 <= i < s.len() ==> s[i] != b
}

/// Splitting never yields an empty list, no piece holds the separator, and
/// joining the pieces gives the input back.
pub proof fn lemma_split_join(s: Seq<u8>, sep: u8)
    ensures
        split(s, sep).len() >= 1,
        forall|k: int| 0 <= k < split(s, sep).len() ==> free_of(#[trigger] split(s, sep)[k], sep),
        join(split(s, sep), sep) == s,
    decreases s.len(),
{
    if s.len() == 0 {
        assert(join(split(s, sep), sep) =~= s);
    } else {
        let before = split(s.drop_last(), sep);
        lemma_split_join(s.drop_last(), sep);
        let now = split(s, sep);
        if s.last() == sep {
            assert(now.drop_last() =~= before);
            assert(join(now, sep) =~= s);
        } else {
            if before.len() == 1 {
                assert(join(now, sep) =~= s);
            } else {
                assert(now.drop_last() =~= before.drop_last());
                let head = join(before.drop_last(), sep).push(sep);
                assert(join(before, sep) == head + before.last());
                assert(join(now, sep) == head + before.last().push(s.last()));
                assert(head + before.last().push(s.last()) =~= (head + before.last()).push(
                    s.last(),
                ));
                assert(s.drop_last().push(s.last()) =~= s);
            }
        }
    }
}

/// The pieces of the first `i` bytes of a text: all but the last are text,
/// and the last starts where the rest of `s` is text.
proof fn lemma_split_text_prefix(s: Seq<u8>, sep: u8, i: int)
    requires
        valid_utf8(s),
        sep <= 0x7f,
        0 <= i <= s.len(),
    ensures
        ({
            let p = split(s.take(i), sep);
            let a = i - p.last().len();
            &&& p.len() >= 1
            &&& 0 <= a <= i
            &&& p.last() == s.subrange(a, i)
            &&& valid_utf8(s.subrange(a, s.len() as int))
            &&& forall|k: int| 0 <= k < p.len() - 1 ==> valid_utf8(#[trigger] p[k])
        }),
    decreases i,
{
    if i == 0 {
        assert(s.take(0) =~= Seq::<u8>::empty());
        assert(s.subrange(0, s.len() as int) =~= s);
        assert(split(s.take(0), sep).last() =~= s.subrange(0, 0));
    } else {
        lemma_split_text_prefix(s, sep, i - 1);
        let q = split(s.take(i - 1), sep);
        let a = (i - 1) - q.last().len();
        let p = split(s.take(i), sep);
        assert(s.take(i).drop_last() =~= s.take(i - 1));
        assert(s.take(i).last() == s[i - 1]);
        let tail = s.subrange(a, s.len() as int);
        if s[i - 1] == sep {
            assert(tail[i - 1 - a] == sep);
            is_char_boundary_iff_not_is_continuation_byte(tail, i - 1 - a);
            valid_utf8_split(tail, i - 1 - a);
            assert(tail.subrange(0, i - 1 - a) =~= s.subrange(a, i - 1));
            let rest = tail.subrange(i - 1 - a, tail.len() as int);
            assert(rest =~= s.subrange(i - 1, s.len() as int));
            assert(rest.len() > 0 && rest[0] == sep);
            assert(pop_first_scalar(rest) =~= s.subrange(i, s.len() as int));
            assert(valid_utf8(s.subrange(i, s.len() as int)));
            assert(p.last() =~= s.subrange(i, i));
            assert forall|k: int| 0 <= k < p.len() - 1 implies valid_utf8(#[trigger] p[k]) by {
                if k < q.len() - 1 {
                    assert(p[k] == q[k]);
                } else {
                    assert(p[k] == q.last());
                }
            }
        } else {
            assert(p.last() =~= s.subrange(a, i));
            assert forall|k: int| 0 <= k < p.len() - 1 implies valid_utf8(#[trigger] p[k]) by {
                assert(p[k] == q[k]);
            }
        }
    }
}

/// Splitting text at an ASCII byte gives pieces that are text: where `s` is
/// valid UTF-8, so is every piece.
pub proof fn lemma_split_text(s: Seq<u8>, sep: u8)
    requires
        valid_utf8(s),
        sep <= 0x7f,
    ensures
        forall|k: int| 0 <= k < split(s, sep).len() ==> valid_utf8(#[trigger] split(s, sep)[k]),
{
    lemma_split_text_prefix(s, sep, s.len() as int);
    assert(s.take(s.len() as int) =~= s);
}

/// Splits `input` at every `sep` and returns where each piece lies.
pub fn split_spans(input: &[u8], sep: u8) -> (spans: Vec<Span>)
    ensures
        spans.len() == split(input@, sep).len(),
        forall|k: int|
            0 <= k < spans.len() ==> {
                &&& (#[trigger] spans[k]).start <= spans[k].end <= input.len()
                &&& spans[k].start == piece_start(split(input@, sep), k)
                &&& input@.subrange(spans[k].start as int, spans[k].end as int) == split(
                    input@,
                    sep,
                )[k]
            },
{
    let mut spans: Vec<Span> = Vec::new();
    let mut start: usize = 0;
    let mut i: usize = 0;
    proof {
        assert(input@.take(0) =~= Seq::<u8>::empty());
        assert(input@.subrange(0, 0) =~= Seq::<u8>::empty());
    }
    while i < input.len()
        invariant
            start <= i <= input.len(),
            spans.len() + 1 == split(input@.take(i as int), sep).len(),
            split(input@.take(i as int), sep).last() == input@.subrange(start as int, i as int),
            start == piece_start(split(input@.take(i as int), sep), spans.len() as int),
            forall|k: int|
                0 <= k < spans.len() ==> {
                    &&& (#[trigger] spans[k]).start <= spans[k].end <= input.len()
                    &&& spans[k].start == piece_start(split(input@.take(i as int), sep), k)
                    &&& input@.subrange(spans[k].start as int, spans[k].end as int) == split(
                        input@.take(i as int),
                        sep,
                    )[k]
                },
        decreases input.len() - i,
    {
        proof {
            assert(input@.take(i + 1).drop_last() =~= input@.take(i as int));
            assert(input@.take(i + 1).last() == input@[i as int]);
            let before = split(input@.take(i as int), sep);
            let after = split(input@.take(i + 1), sep);
            assert forall|k: int| 0 <= k <= spans.len() implies piece_start(after, k)
                == piece_start(before, k) by {
                lemma_piece_start_same(after, before, k);
            }
            assert(before.last().len() == i - start);
        }
        if input[i] == sep {
            spans.push(Span { start, end: i });
            start = i + 1;
            proof {
                assert(input@.subrange(start as int, start as int) =~= Seq::<u8>::empty());
            }
        } else {
            proof {
                assert(input@.subrange(start as int, i as int).push(input@[i as int])
                    =~= input@.subrange(start as int, i + 1));
            }
        }
        i += 1;
    }
    proof {
        assert(input@.take(i as int) =~= input@);
    }
    spans.push(Span { start, end: i });
    spans
}

/// Whether two byte strings hold the same bytes.
pub fn bytes_eq(a: &[u8], b: &[u8]) -> (same: bool)
    ensures
        same == (a@ == b@),
{
    if a.len() != b.len() {
        return false;
    }
    let mut i: usize = 0;
    while i < a.len()
        invariant
            a.len() == b.len(),
            i <= a.len(),
            forall|j: int| 0 <= j < i ==> a@[j] == b@[j],
        decreases a.len() - i,
    {
        if a[i] != b[i] {
            return false;
        }
        i += 1;
    }
    proof {
        assert(a@ =~= b@);
    }
    true
}

/// The bytes of `input` that `span` covers, as a slice.
pub fn slice_of<'a>(input: &'a [u8], span: Span) -> (piece: &'a [u8])
    requires
        span.start <= span.end <= input.len(),
    ensures
        piece@ == input@.subrange(span.start as int, span.end as int),
{
    slice_subrange(input, span.start, span.end)
}

/// `std::str::from_utf8`: the bytes as text, exactly where they are valid
/// UTF-8; the text then has these bytes as its encoding.
#[verifier::external_body]
fn text_of<'a>(bytes: &'a [u8]) -> (text: Option<&'a str>)
    ensures
        text is Some <==> valid_utf8(bytes@),
        text matches Some(t) ==> t.spec_bytes() == bytes@,
{
    match std::str::from_utf8(bytes) {
        Ok(t) => Some(t),
        Err(_) => None,
    }
}

/// The bytes as text, where they are valid UTF-8.
pub fn decode(bytes: &[u8]) -> (text: Option<&str>)
    ensures
        text is Some <==> valid_utf8(bytes@),
        text matches Some(t) ==> t@ == decode_utf8(bytes@),
{
    let text = text_of(bytes);
    proof {
        if let Some(t) = text {
            encode_utf8_decode_utf8(t@);
        }
    }
    text
}

} // verus!
