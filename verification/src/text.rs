use vstd::prelude::*;
use vstd::utf8::*;

verus! {

/// Relies on memchr::memchr: the index of the first occurrence of `needle`
/// in `haystack`, or `None` when it does not occur.
pub assume_specification [ memchr::memchr ] (needle: u8, haystack: &[u8]) -> (r: Option<usize>)
    ensures
        (r matches Some(i) ==> i < haystack@.len() && haystack@[i as int] == needle && (forall|
            j: int,
        | 0 <= j < i ==> haystack@[j] != needle)),
        (r is None ==> forall|j: int| 0 <= j < haystack@.len() ==> haystack@[j] != needle),
;

/// The UTF-8 encoding of a concatenation is the concatenation of the
/// encodings.
pub proof fn lemma_encode_utf8_concat(a: Seq<char>, b: Seq<char>)
    ensures
        encode_utf8(a + b) =~= encode_utf8(a) + encode_utf8(b),
    decreases a.len(),
{
    if a.len() == 0 {
        assert(a + b =~= b);
        assert(encode_utf8(a) =~= Seq::<u8>::empty());
    } else {
        assert((a + b)[0] == a[0]);
        assert((a + b).drop_first() =~= a.drop_first() + b);
        lemma_encode_utf8_concat(a.drop_first(), b);
        assert(encode_utf8(a + b) =~= encode_utf8(a) + encode_utf8(b));
    }
}

/// A UTF-8 encoding is at least as long as the character sequence it
/// encodes; in particular only the empty sequence has an empty encoding.
pub proof fn lemma_encode_utf8_len(a: Seq<char>)
    ensures
        encode_utf8(a).len() >= a.len(),
    decreases a.len(),
{
    if a.len() > 0 {
        lemma_scalar_facts(a[0]);
        lemma_encode_utf8_len(a.drop_first());
    }
}

/// Facts about the encoding of one character: its length, where a line feed
/// byte can occur in it, and what a one-byte (ASCII) encoding means.
pub proof fn lemma_scalar_facts(c: char)
    ensures
        1 <= encode_scalar(c as u32).len() <= 4,
        c == '\n' ==> encode_scalar(c as u32) =~= seq![10u8],
        c != '\n' ==> (forall|k: int|
            0 <= k < encode_scalar(c as u32).len() ==> #[trigger] encode_scalar(c as u32)[k]
                != 10u8),
        is_leading_byte_width_1(encode_scalar(c as u32).last()) ==> (encode_scalar(c as u32)
            =~= seq![encode_scalar(c as u32).last()] && c as u32 == encode_scalar(
            c as u32,
        ).last() as u32),
        !is_leading_byte_width_1(encode_scalar(c as u32).last()) ==> c as u32 >= 0x80,
{
    char_is_scalar(c);
    let u = c as u32;
    assert('\n' as u32 == 10);
    if has_width_1_encoding(u) {
        let b = leading_byte_width_1(u);
        assert(((u & 0x7f) as u8) as u32 == u && (u & 0x7f) as u8 <= 0x7f && (((u & 0x7f) as u8)
            == 10u8 <==> u == 10)) by (bit_vector)
            requires
                u <= 0x7f,
        ;
        if u == 10 {
            char_u32_cast(c, 10);
            char_u32_cast('\n', 10);
        }
        if c == '\n' {
            assert(u == 10);
        }
    } else if has_width_2_encoding(u) {
        let b1 = leading_byte_width_2(u);
        let b2 = last_continuation_byte(u);
        assert((0xc0u8 | ((u >> 6) & 0x1f) as u8) >= 0xc0 && (0x80u8 | (u & 0x3f) as u8) >= 0x80
            && (0x80u8 | (u & 0x3f) as u8) <= 0xbf) by (bit_vector);
        assert(c != '\n');
    } else if has_width_3_encoding(u) {
        let b1 = leading_byte_width_3(u);
        let b2 = second_last_continuation_byte(u);
        let b3 = last_continuation_byte(u);
        assert((0xe0u8 | ((u >> 12) & 0x0f) as u8) >= 0xe0 && (0x80u8 | ((u >> 6) & 0x3f) as u8)
            >= 0x80 && (0x80u8 | ((u >> 6) & 0x3f) as u8) <= 0xbf && (0x80u8 | (u & 0x3f) as u8)
            >= 0x80 && (0x80u8 | (u & 0x3f) as u8) <= 0xbf) by (bit_vector);
        assert(c != '\n');
    } else {
        let b1 = leading_byte_width_4(u);
        let b2 = third_last_continuation_byte(u);
        let b3 = second_last_continuation_byte(u);
        let b4 = last_continuation_byte(u);
        assert((0xf0u8 | ((u >> 18) & 0x7) as u8) >= 0xf0 && (0x80u8 | ((u >> 12) & 0x3f) as u8)
            >= 0x80 && (0x80u8 | ((u >> 12) & 0x3f) as u8) <= 0xbf && (0x80u8 | ((u >> 6)
            & 0x3f) as u8) >= 0x80 && (0x80u8 | ((u >> 6) & 0x3f) as u8) <= 0xbf && (0x80u8 | (u
            & 0x3f) as u8) >= 0x80 && (0x80u8 | (u & 0x3f) as u8) <= 0xbf) by (bit_vector);
        assert(c != '\n');
    }
}

/// The last byte of a UTF-8 encoding identifies the last character when it
/// is a one-byte (ASCII) encoding, and rules ASCII out otherwise.
pub proof fn lemma_encode_utf8_last(chars: Seq<char>)
    requires
        chars.len() > 0,
    ensures
        encode_utf8(chars).len() > 0,
        is_leading_byte_width_1(encode_utf8(chars).last()) ==> (chars.last() as u32 == encode_utf8(
            chars,
        ).last() as u32 && encode_utf8(chars.drop_last()) =~= encode_utf8(chars).drop_last()),
        !is_leading_byte_width_1(encode_utf8(chars).last()) ==> chars.last() as u32 >= 0x80,
    decreases chars.len(),
{
    let e = encode_utf8(chars);
    lemma_scalar_facts(chars[0]);
    if chars.len() == 1 {
        assert(chars.drop_first() =~= Seq::<char>::empty());
        assert(e =~= encode_scalar(chars[0] as u32));
        assert(chars.last() == chars[0]);
        if is_leading_byte_width_1(e.last()) {
            assert(encode_scalar(chars[0] as u32) =~= seq![e.last()]);
            assert(chars.drop_last() =~= Seq::<char>::empty());
            assert(encode_utf8(chars.drop_last()) =~= Seq::<u8>::empty());
            assert(e.drop_last() =~= Seq::<u8>::empty());
        }
    } else {
        let rest = chars.drop_first();
        lemma_encode_utf8_last(rest);
        let er = encode_utf8(rest);
        let sc = encode_scalar(chars[0] as u32);
        assert(e =~= sc + er);
        assert(e.last() == er.last());
        assert(chars.last() == rest.last());
        if is_leading_byte_width_1(e.last()) {
            let single = seq![chars[0]];
            assert(chars.drop_last() =~= single + rest.drop_last());
            lemma_encode_utf8_concat(single, rest.drop_last());
            assert(single.len() == 1 && single[0] == chars[0]);
            assert(single.drop_first() =~= Seq::<char>::empty());
            assert(encode_utf8(single.drop_first()) =~= Seq::<u8>::empty());
            assert(encode_utf8(single) =~= sc + Seq::<u8>::empty());
            assert(encode_utf8(single) =~= sc);
            assert(encode_utf8(chars.drop_last()) =~= sc + er.drop_last());
            assert(sc + er.drop_last() =~= (sc + er).drop_last());
            assert(encode_utf8(chars.drop_last()) =~= e.drop_last());
        }
    }
}

/// A character sequence whose UTF-8 encoding holds no line feed byte holds
/// no line feed character.
pub proof fn lemma_no_lf_bytes(chars: Seq<char>)
    requires
        forall|k: int| 0 <= k < encode_utf8(chars).len() ==> encode_utf8(chars)[k] != 10u8,
    ensures
        forall|j: int| 0 <= j < chars.len() ==> chars[j] != '\n',
    decreases chars.len(),
{
    if chars.len() > 0 {
        lemma_scalar_facts(chars[0]);
        let sc = encode_scalar(chars[0] as u32);
        let rest = chars.drop_first();
        assert(encode_utf8(chars) =~= sc + encode_utf8(rest));
        if chars[0] == '\n' {
            assert(encode_utf8(chars)[0] == 10u8);
            assert(false);
        }
        assert forall|k: int| 0 <= k < encode_utf8(rest).len() implies encode_utf8(rest)[k]
            != 10u8 by {
            assert(encode_utf8(rest)[k] == encode_utf8(chars)[sc.len() + k]);
        }
        lemma_no_lf_bytes(rest);
        assert forall|j: int| 0 <= j < chars.len() implies chars[j] != '\n' by {
            if j > 0 {
                assert(chars[j] == rest[j - 1]);
            }
        }
    }
}

/// In valid UTF-8, the position right after a one-byte (ASCII) encoding is a
/// character boundary.
pub proof fn lemma_boundary_after_ascii(bytes: Seq<u8>, i: int)
    requires
        valid_utf8(bytes),
        0 <= i < bytes.len(),
        is_leading_byte_width_1(bytes[i]),
    ensures
        is_char_boundary(bytes, i + 1),
{
    broadcast use group_utf8_lib;

    assert(!is_continuation_byte(bytes[i]));
    assert(is_char_boundary(bytes, i));
    if i + 1 == bytes.len() {
        assert(is_char_boundary(bytes, i + 1));
    } else {
        let tail = bytes.subrange(i, bytes.len() as int);
        assert(valid_utf8(tail));
        assert(tail.len() >= 2);
        assert(tail[0] == bytes[i]);
        assert(valid_first_scalar(tail));
        assert(length_of_first_scalar(tail) == 1);
        let t2 = pop_first_scalar(tail);
        assert(valid_utf8(t2));
        assert(t2.len() > 0);
        assert(t2[0] == bytes[i + 1]);
        assert(valid_first_scalar(t2));
        assert(valid_leading_and_continuation_bytes_first_codepoint(t2));
        assert(!is_continuation_byte(t2[0]));
        assert(is_char_boundary(bytes, i + 1));
    }
}

/// The length of a string in bytes: the length of the UTF-8 encoding of its
/// characters.
pub fn byte_len(s: &str) -> (n: usize)
    ensures
        n == encode_utf8(s@).len(),
{
    s.as_bytes().len()
}

/// Splits a string at a byte index that falls on a character boundary,
/// returning the two halves as owned strings.
pub fn split_at_byte(s: &str, m: usize) -> (r: (String, String))
    requires
        m <= encode_utf8(s@).len(),
        is_char_boundary(encode_utf8(s@), m as int),
    ensures
        s@ =~= r.0@ + r.1@,
        encode_utf8(r.0@) =~= encode_utf8(s@).subrange(0, m as int),
        encode_utf8(r.1@) =~= encode_utf8(s@).subrange(m as int, encode_utf8(s@).len() as int),
{
    proof {
        broadcast use group_utf8_lib;

    }
    let (a, b) = s.split_at(m);
    let ra = a.to_owned();
    let rb = b.to_owned();
    proof {
        lemma_encode_utf8_concat(ra@, rb@);
        assert(encode_utf8(ra@ + rb@) =~= encode_utf8(s@));
        assert(decode_utf8(encode_utf8(ra@ + rb@)) == ra@ + rb@);
        assert(decode_utf8(encode_utf8(s@)) == s@);
        assert(s@ =~= ra@ + rb@);
    }
    (ra, rb)
}

/// Splits decoded text at the first line feed. When one is found, the first
/// component ends exactly at it and the second holds everything after it;
/// otherwise the text comes back whole, with no line feed anywhere in it.
pub fn split_first_line(chunk: String) -> (r: (String, Option<String>))
    ensures
        (r.1 matches Some(rest) ==> chunk@ =~= r.0@ + rest@ && r.0@.len() > 0 && r.0@.last() == '\n'
            && (forall|i: int| 0 <= i < r.0@.len() - 1 ==> r.0@[i] != '\n')),
        (r.1 is None ==> r.0@ == chunk@ && (forall|i: int|
            0 <= i < chunk@.len() ==> chunk@[i] != '\n')),
{
    proof {
        broadcast use group_utf8_lib;

    }
    let total = byte_len(chunk.as_str());
    let found = memchr::memchr(10u8, chunk.as_str().as_bytes());
    match found {
        None => {
            proof {
                lemma_no_lf_bytes(chunk@);
            }
            (chunk, None)
        },
        Some(i) => {
            assert(i < total);
            proof {
                lemma_boundary_after_ascii(encode_utf8(chunk@), i as int);
            }
            let (head, rest) = split_at_byte(chunk.as_str(), i + 1);
            proof {
                let e = encode_utf8(chunk@);
                let eh = encode_utf8(head@);
                if head@.len() == 0 {
                    assert(eh =~= Seq::<u8>::empty());
                    assert(false);
                }
                lemma_encode_utf8_last(head@);
                assert(eh.last() == e[i as int]);
                assert(is_leading_byte_width_1(10u8));
                assert(head@.last() as u32 == 10);
                char_u32_cast(head@.last(), 10);
                char_u32_cast('\n', 10);
                assert(head@.last() == '\n');
                assert(encode_utf8(head@.drop_last()) =~= eh.drop_last());
                assert forall|k: int|
                    0 <= k < encode_utf8(head@.drop_last()).len() implies encode_utf8(
                    head@.drop_last(),
                )[k] != 10u8 by {
                    assert(encode_utf8(head@.drop_last())[k] == e[k]);
                }
                lemma_no_lf_bytes(head@.drop_last());
                assert forall|j: int| 0 <= j < head@.len() - 1 implies head@[j] != '\n' by {
                    assert(head@[j] == head@.drop_last()[j]);
                }
            }
            (head, Some(rest))
        },
    }
}

/// What remains of a line once its terminator is stripped: one trailing line
/// feed is removed, and a carriage return directly before it is removed too.
pub open spec fn strip_line_terminator_spec(s: Seq<char>) -> Seq<char> {
    if s.len() > 0 && s.last() == '\n' {
        let t = s.drop_last();
        if t.len() > 0 && t.last() == '\r' {
            t.drop_last()
        } else {
            t
        }
    } else {
        s
    }
}

/// Removes one trailing line feed, and a carriage return directly before it,
/// from the given text.
pub fn strip_line_terminator(s: String) -> (r: String)
    ensures
        r@ == strip_line_terminator_spec(s@),
{
    proof {
        broadcast use group_utf8_lib;

    }
    let n = byte_len(s.as_str());
    if n == 0 {
        proof {
            lemma_encode_utf8_len(s@);
        }
        return s;
    }
    proof {
        if s@.len() == 0 {
            assert(encode_utf8(s@) =~= Seq::<u8>::empty());
            assert(false);
        }
        lemma_encode_utf8_last(s@);
        char_u32_cast('\n', 10);
        char_u32_cast('\r', 13);
    }
    let lastb = s.as_str().as_bytes()[n - 1];
    proof {
        assert(lastb == encode_utf8(s@).last());
        if lastb != 10u8 {
            if is_leading_byte_width_1(lastb) {
                assert(s@.last() as u32 == lastb as u32);
            }
            assert(s@.last() != '\n');
        } else {
            assert(s@.last() as u32 == 10);
            char_u32_cast(s@.last(), 10);
            assert(s@.last() == '\n');
            assert(!is_continuation_byte(encode_utf8(s@)[n - 1]));
            assert(is_char_boundary(encode_utf8(s@), n - 1));
        }
    }
    if lastb != 10u8 {
        return s;
    }
    let (head, _nl) = split_at_byte(s.as_str(), n - 1);
    proof {
        assert(encode_utf8(head@) =~= encode_utf8(s@).drop_last());
        assert(encode_utf8(s@.drop_last()) =~= encode_utf8(s@).drop_last());
        assert(decode_utf8(encode_utf8(head@)) == head@);
        assert(decode_utf8(encode_utf8(s@.drop_last())) == s@.drop_last());
        assert(head@ =~= s@.drop_last());
    }
    let m = byte_len(head.as_str());
    if m == 0 {
        proof {
            lemma_encode_utf8_len(head@);
        }
        return head;
    }
    proof {
        if head@.len() == 0 {
            assert(encode_utf8(head@) =~= Seq::<u8>::empty());
            assert(false);
        }
        lemma_encode_utf8_last(head@);
    }
    let lb2 = head.as_str().as_bytes()[m - 1];
    proof {
        assert(lb2 == encode_utf8(head@).last());
        if lb2 != 13u8 {
            if is_leading_byte_width_1(lb2) {
                assert(head@.last() as u32 == lb2 as u32);
            }
            assert(head@.last() != '\r');
        } else {
            assert(head@.last() as u32 == 13);
            char_u32_cast(head@.last(), 13);
            assert(head@.last() == '\r');
            assert(!is_continuation_byte(encode_utf8(head@)[m - 1]));
            assert(is_char_boundary(encode_utf8(head@), m - 1));
        }
    }
    if lb2 != 13u8 {
        return head;
    }
    let (head2, _cr) = split_at_byte(head.as_str(), m - 1);
    proof {
        assert(encode_utf8(head2@) =~= encode_utf8(head@).drop_last());
        assert(encode_utf8(head@.drop_last()) =~= encode_utf8(head@).drop_last());
        assert(decode_utf8(encode_utf8(head2@)) == head2@);
        assert(decode_utf8(encode_utf8(head@.drop_last())) == head@.drop_last());
        assert(head2@ =~= head@.drop_last());
    }
    head2
}

} // verus!

