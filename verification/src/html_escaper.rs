//! HTML escaping of the poison stream: every `<`, `>` and `&` byte is
//! replaced by its entity, chunk by chunk, so the fetched text can be
//! embedded in a page without injecting markup.

use crate::chunk::{bytes_as_slice, bytes_from_static, bytes_split_off, bytes_truncate, bytes_view, bytes_views};
use bytes::Bytes;
use vstd::prelude::*;
use vstd::seq_lib::lemma_flatten_concat;

verus! {

/// `&lt;`
pub const LT_ENTITY: [u8; 4] = [38, 108, 116, 59];

/// `&gt;`
pub const GT_ENTITY: [u8; 4] = [38, 103, 116, 59];

/// `&amp;`
pub const AMP_ENTITY: [u8; 5] = [38, 97, 109, 112, 59];

/// The bytes that the escaper replaces: `<`, `>` and `&`.
pub open spec fn needs_escape(b: u8) -> bool {
    b == 60 || b == 62 || b == 38
}

/// The entity that stands for an escaped byte.
pub open spec fn entity_of(b: u8) -> Seq<u8> {
    if b == 60 {
        seq![38u8, 108u8, 116u8, 59u8]
    } else if b == 62 {
        seq![38u8, 103u8, 116u8, 59u8]
    } else {
        seq![38u8, 97u8, 109u8, 112u8, 59u8]
    }
}

/// What one input byte becomes in the output.
pub open spec fn escape_byte(b: u8) -> Seq<u8> {
    if needs_escape(b) {
        entity_of(b)
    } else {
        seq![b]
    }
}

/// The escaped form of a byte string: each byte replaced by `escape_byte`.
pub open spec fn escape_html(s: Seq<u8>) -> Seq<u8>
    decreases s.len(),
{
    if s.len() == 0 {
        Seq::empty()
    } else {
        escape_byte(s[0]) + escape_html(s.drop_first())
    }
}

/// The index of the first byte of `s` that needs escaping, if any.
pub open spec fn first_escape(s: Seq<u8>) -> Option<int>
    decreases s.len(),
{
    if s.len() == 0 {
        None
    } else if needs_escape(s[0]) {
        Some(0)
    } else {
        match first_escape(s.drop_first()) {
            Some(i) => Some(i + 1),
            None => None,
        }
    }
}

/// The pieces that the escaper yields for one chunk, in order: the text
/// before the first byte to escape, that byte's entity, then the pieces of
/// the rest; a chunk with nothing to escape is yielded whole. Pieces may be
/// empty.
pub open spec fn escape_pieces(s: Seq<u8>) -> Seq<Seq<u8>>
    decreases s.len(),
{
    match first_escape(s) {
        Some(i) => if 0 <= i < s.len() {
            seq![s.take(i), entity_of(s[i])] + escape_pieces(s.skip(i + 1))
        } else {
            seq![s]
        },
        None => seq![s],
    }
}

/// Reads the three entities back into the bytes they stand for; every
/// other byte is kept.
pub open spec fn unescape_html(s: Seq<u8>) -> Seq<u8>
    decreases s.len(),
{
    if s.len() >= 4 && s.take(4) == entity_of(60) {
        seq![60u8] + unescape_html(s.skip(4))
    } else if s.len() >= 4 && s.take(4) == entity_of(62) {
        seq![62u8] + unescape_html(s.skip(4))
    } else if s.len() >= 5 && s.take(5) == entity_of(38) {
        seq![38u8] + unescape_html(s.skip(5))
    } else if s.len() > 0 {
        seq![s[0]] + unescape_html(s.drop_first())
    } else {
        Seq::empty()
    }
}

proof fn lemma_first_escape(s: Seq<u8>)
    ensures
        match first_escape(s) {
            Some(i) => 0 <= i < s.len() && needs_escape(s[i]) && forall|j: int|
                0 <= j < i ==> !needs_escape(#[trigger] s[j]),
            None => forall|j: int| 0 <= j < s.len() ==> !needs_escape(#[trigger] s[j]),
        },
    decreases s.len(),
{
    if s.len() > 0 && !needs_escape(s[0]) {
        lemma_first_escape(s.drop_first());
        assert forall|j: int| 1 <= j < s.len() implies s[j] == s.drop_first()[j - 1] by {}
    }
}

/// Escaping distributes over concatenation.
pub proof fn lemma_escape_concat(a: Seq<u8>, b: Seq<u8>)
    ensures
        escape_html(a + b) == escape_html(a) + escape_html(b),
    decreases a.len(),
{
    if a.len() == 0 {
        assert(a + b =~= b);
    } else {
        lemma_escape_concat(a.drop_first(), b);
        assert((a + b).drop_first() =~= a.drop_first() + b);
        assert((a + b)[0] == a[0]);
        assert(escape_byte(a[0]) + (escape_html(a.drop_first()) + escape_html(b)) =~= (
        escape_byte(a[0]) + escape_html(a.drop_first())) + escape_html(b));
    }
}

proof fn lemma_escape_plain(s: Seq<u8>)
    requires
        forall|j: int| 0 <= j < s.len() ==> !needs_escape(#[trigger] s[j]),
    ensures
        escape_html(s) == s,
    decreases s.len(),
{
    if s.len() > 0 {
        assert forall|j: int| 0 <= j < s.drop_first().len() implies !needs_escape(
            #[trigger] s.drop_first()[j],
        ) by {
            assert(s.drop_first()[j] == s[j + 1]);
        }
        lemma_escape_plain(s.drop_first());
        assert(seq![s[0]] + s.drop_first() =~= s);
    }
}

/// The pieces of a chunk, put together, are the escaped chunk.
pub proof fn lemma_pieces_flatten(s: Seq<u8>)
    ensures
        escape_pieces(s).flatten() == escape_html(s),
    decreases s.len(),
{
    lemma_first_escape(s);
    match first_escape(s) {
        Some(i) => {
            let pre = s.take(i);
            let rest = s.skip(i + 1);
            lemma_pieces_flatten(rest);
            assert(s =~= pre + (seq![s[i]] + rest));
            assert forall|j: int| 0 <= j < pre.len() implies !needs_escape(#[trigger] pre[j]) by {
                assert(pre[j] == s[j]);
            }
            lemma_escape_plain(pre);
            lemma_escape_concat(pre, seq![s[i]] + rest);
            lemma_escape_concat(seq![s[i]], rest);
            assert(escape_html(seq![s[i]]) =~= entity_of(s[i])) by {
                let one = seq![s[i]];
                assert(one.drop_first() =~= Seq::<u8>::empty());
                assert(escape_html(one.drop_first()) == Seq::<u8>::empty());
                assert(escape_html(one) == escape_byte(s[i]) + escape_html(one.drop_first()));
            }
            let head: Seq<Seq<u8>> = seq![pre, entity_of(s[i])];
            lemma_flatten_concat(head, escape_pieces(rest));
            assert(head.flatten() =~= pre + entity_of(s[i])) by {
                reveal_with_fuel(Seq::flatten, 3);
            }
        },
        None => {
            lemma_escape_plain(s);
            assert(seq![s].flatten() =~= s) by {
                reveal_with_fuel(Seq::flatten, 2);
            }
        },
    }
}

/// Escaped output never holds a `<` or a `>`, so no tag survives escaping.
pub proof fn lemma_escaped_has_no_angle_brackets(s: Seq<u8>)
    ensures
        forall|j: int|
            0 <= j < escape_html(s).len() ==> #[trigger] escape_html(s)[j] != 60u8
                && escape_html(s)[j] != 62u8,
    decreases s.len(),
{
    if s.len() > 0 {
        lemma_escaped_has_no_angle_brackets(s.drop_first());
        let e = escape_byte(s[0]);
        let r = escape_html(s.drop_first());
        assert forall|j: int| 0 <= j < (e + r).len() implies #[trigger] (e + r)[j] != 60u8 && (e
            + r)[j] != 62u8 by {
            if j >= e.len() {
                assert((e + r)[j] == r[j - e.len()]);
            }
        }
    }
}

/// Escaping loses nothing: reading the entities back gives the input.
pub proof fn lemma_unescape_escape(s: Seq<u8>)
    ensures
        unescape_html(escape_html(s)) == s,
    decreases s.len(),
{
    if s.len() == 0 {
        assert(escape_html(s) =~= Seq::<u8>::empty());
    } else {
        let b = s[0];
        let rest = escape_html(s.drop_first());
        let out = escape_byte(b) + rest;
        lemma_unescape_escape(s.drop_first());
        if needs_escape(b) {
            let n = entity_of(b).len() as int;
            assert(out.take(n) =~= entity_of(b));
            assert(out.skip(n) =~= rest);
            if b == 60 {
            } else if b == 62 {
                assert(out.take(4) != entity_of(60)) by {
                    assert(out.take(4)[1] != entity_of(60)[1]);
                }
            } else {
                assert(out.take(4) != entity_of(60)) by {
                    assert(out.take(4)[1] != entity_of(60)[1]);
                }
                assert(out.take(4) != entity_of(62)) by {
                    assert(out.take(4)[1] != entity_of(62)[1]);
                }
            }
        } else {
            assert(out[0] == b);
            assert(out.len() >= 4 ==> out.take(4)[0] == b);
            assert(out.len() >= 5 ==> out.take(5)[0] == b);
            assert(out.drop_first() =~= rest);
        }
        assert(seq![b] + s.drop_first() =~= s);
    }
}

/// The index of the first byte that needs escaping, if any.
fn find_escape(s: &[u8]) -> (found: Option<usize>)
    ensures
        match found {
            Some(i) => first_escape(s@) == Some(i as int),
            None => first_escape(s@) is None,
        },
{
    proof {
        lemma_first_escape(s@);
    }
    let mut i: usize = 0;
    while i < s.len()
        invariant
            i <= s@.len(),
            forall|j: int| 0 <= j < i ==> !needs_escape(#[trigger] s@[j]),
            match first_escape(s@) {
                Some(k) => 0 <= k < s@.len() && needs_escape(s@[k]) && forall|j: int|
                    0 <= j < k ==> !needs_escape(#[trigger] s@[j]),
                None => forall|j: int| 0 <= j < s@.len() ==> !needs_escape(#[trigger] s@[j]),
            },
        decreases s.len() - i,
    {
        let b = s[i];
        if b == 60u8 || b == 62u8 || b == 38u8 {
            proof {
                if let Some(k) = first_escape(s@) {
                    if k < i {
                        assert(!needs_escape(s@[k]));
                    }
                    if k > i {
                        assert(!needs_escape(s@[i as int]));
                    }
                }
            }
            return Some(i);
        }
        i = i + 1;
    }
    proof {
        if let Some(k) = first_escape(s@) {
            assert(!needs_escape(s@[k]));
        }
    }
    None
}

/// The buffer holding the entity for an escaped byte.
fn entity_buffer(b: u8) -> (e: Bytes)
    requires
        needs_escape(b),
    ensures
        bytes_view(e) == entity_of(b),
{
    if b == 60u8 {
        let e = bytes_from_static(&LT_ENTITY);
        assert(bytes_view(e) =~= entity_of(b));
        e
    } else if b == 62u8 {
        let e = bytes_from_static(&GT_ENTITY);
        assert(bytes_view(e) =~= entity_of(b));
        e
    } else {
        let e = bytes_from_static(&AMP_ENTITY);
        assert(bytes_view(e) =~= entity_of(b));
        e
    }
}

/// Escapes one chunk of the poison stream. The chunk is cut (without
/// copying) at each byte to escape, and the result holds, in order, the
/// text before that byte, its entity, and so on, ending with the text after
/// the last escaped byte; put together the pieces are the escaped chunk.
pub fn escape_html_chunk(chunk: Bytes) -> (pieces: Vec<Bytes>)
    ensures
        bytes_views(pieces@) == escape_pieces(bytes_view(chunk)),
        bytes_views(pieces@).flatten() == escape_html(bytes_view(chunk)),
{
    let ghost original = bytes_view(chunk);
    let mut pieces: Vec<Bytes> = Vec::new();
    let mut rest = chunk;
    loop
        invariant
            original == bytes_view(chunk),
            bytes_views(pieces@) + escape_pieces(bytes_view(rest)) == escape_pieces(original),
        decreases bytes_view(rest).len(),
    {
        let ghost cur = bytes_view(rest);
        let found = find_escape(bytes_as_slice(&rest));
        match found {
            None => {
                let ghost before = pieces@;
                pieces.push(rest);
                proof {
                    assert(escape_pieces(cur) == seq![cur]);
                    assert(bytes_views(pieces@) =~= bytes_views(before) + seq![cur]);
                    lemma_pieces_flatten(original);
                }
                return pieces;
            },
            Some(i) => {
                proof {
                    lemma_first_escape(cur);
                }
                let b = bytes_as_slice(&rest)[i];
                let entity = entity_buffer(b);
                let remaining = bytes_split_off(&mut rest, i + 1);
                bytes_truncate(&mut rest, i);
                let ghost before = pieces@;
                pieces.push(rest);
                pieces.push(entity);
                proof {
                    assert(bytes_view(rest) =~= cur.take(i as int));
                    assert(bytes_views(pieces@) =~= bytes_views(before) + seq![
                        cur.take(i as int),
                        entity_of(cur[i as int]),
                    ]);
                    assert(escape_pieces(cur) == seq![cur.take(i as int), entity_of(cur[i as int])]
                        + escape_pieces(cur.skip(i + 1)));
                }
                rest = remaining;
                proof {
                    assert(bytes_views(pieces@) + escape_pieces(bytes_view(rest)) =~= bytes_views(
                        before,
                    ) + escape_pieces(cur));
                }
            },
        }
    }
}

/// Escaping a stream chunk by chunk gives the escaped stream: the escaped
/// chunks, put together, are the escaped concatenation of the chunks,
/// wherever the chunk boundaries fall.
pub proof fn lemma_escape_chunked(chunks: Seq<Seq<u8>>)
    ensures
        chunks.map_values(|c: Seq<u8>| escape_html(c)).flatten() == escape_html(chunks.flatten()),
    decreases chunks.len(),
{
    if chunks.len() == 0 {
        assert(chunks.map_values(|c: Seq<u8>| escape_html(c)) =~= Seq::<Seq<u8>>::empty());
        assert(escape_html(Seq::<u8>::empty()) == Seq::<u8>::empty());
    } else {
        let rest = chunks.drop_first();
        lemma_escape_chunked(rest);
        lemma_escape_concat(chunks[0], rest.flatten());
        assert(chunks.map_values(|c: Seq<u8>| escape_html(c)).drop_first() =~= rest.map_values(
            |c: Seq<u8>| escape_html(c),
        ));
    }
}

/// One item of the poison stream after escaping: an error is passed on as
/// it is; a chunk becomes its escaped pieces, in order.
pub fn escape_html_item<E>(item: Result<Bytes, E>) -> (out: Vec<Result<Bytes, E>>)
    ensures
        match item {
            Err(e) => out@ == seq![Err::<Bytes, E>(e)],
            Ok(c) => out@.len() == escape_pieces(bytes_view(c)).len() && forall|i: int|
                0 <= i < out@.len() ==> (#[trigger] out@[i] matches Ok(b) && bytes_view(b)
                    == escape_pieces(bytes_view(c))[i]),
        },
{
    match item {
        Err(e) => {
            let mut out: Vec<Result<Bytes, E>> = Vec::new();
            out.push(Err(e));
            assert(out@ =~= seq![Err::<Bytes, E>(e)]);
            out
        },
        Ok(c) => {
            let mut pieces = escape_html_chunk(c);
            let ghost all = bytes_views(pieces@);
            let ghost n = pieces@.len();
            let mut reversed: Vec<Bytes> = Vec::new();
            while pieces.len() > 0
                invariant
                    n == all.len(),
                    pieces@.len() + reversed@.len() == n,
                    forall|j: int| 0 <= j < pieces@.len() ==> bytes_view(#[trigger] pieces@[j]) == all[j],
                    forall|j: int| 0 <= j < reversed@.len() ==> bytes_view(#[trigger] reversed@[j]) == all[n - 1 - j],
                decreases pieces@.len(),
            {
                let ghost before = pieces@;
                let b = pieces.pop().unwrap();
                assert(bytes_view(b) == all[n - 1 - reversed@.len()]) by {
                    assert(b == before[before.len() - 1]);
                }
                reversed.push(b);
            }
            let mut out: Vec<Result<Bytes, E>> = Vec::new();
            while reversed.len() > 0
                invariant
                    n == all.len(),
                    out@.len() + reversed@.len() == n,
                    forall|j: int| 0 <= j < reversed@.len() ==> bytes_view(#[trigger] reversed@[j]) == all[n - 1 - j],
                    forall|j: int| 0 <= j < out@.len() ==> (#[trigger] out@[j] matches Ok(b) && bytes_view(b) == all[j]),
                decreases reversed@.len(),
            {
                let ghost before = reversed@;
                let b = reversed.pop().unwrap();
                assert(bytes_view(b) == all[out@.len() as int]) by {
                    assert(b == before[before.len() - 1]);
                }
                out.push(Ok(b));
            }
            out
        },
    }
}

} // verus!
