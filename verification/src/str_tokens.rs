//! A cursor over borrowed UTF-8 text.

use vstd::prelude::*;
use vstd::string::StrSliceExecFns;
use vstd::string::StringSliceAdditionalSpecFns;
use vstd::utf8::decode_first_scalar;
use vstd::utf8::decode_utf8;
use vstd::utf8::encode_scalar;
use vstd::utf8::encode_utf8;
use vstd::utf8::is_char_boundary;
use vstd::utf8::length_of_first_scalar;
use vstd::utf8::pop_first_scalar;
use vstd::utf8::take_first_scalar;
use vstd::utf8::valid_first_scalar;
use vstd::utf8::valid_utf8;

verus! {

broadcast use vstd::utf8::group_utf8_lib;

/// A sequential cursor over borrowed UTF-8 text.
///
/// The cursor holds a non-owning view of the source text and a byte offset
/// that always lies on a character boundary.  Producing the next item
/// decodes one character and advances the offset past its encoding; a saved
/// [`StrTokensCheckpoint`] rewinds the offset.  The text itself is never
/// copied or mutated.
pub struct StrTokens<'a> {
    text: &'a str,
    cursor: usize,
}

/// An opaque saved position of a [`StrTokens`] cursor.
///
/// A checkpoint is only meaningful for the cursor that produced it (or one
/// over the same source): rewinding demands [`StrTokens::accepts_checkpoint`].
pub struct StrTokensCheckpoint(usize);

impl StrTokensCheckpoint {
    /// The byte offset this checkpoint restores.
    pub closed spec fn pos(self) -> nat {
        self.0 as nat
    }
}

impl<'a> StrTokens<'a> {
    /// The characters of the full original source text.
    pub closed spec fn src(self) -> Seq<char> {
        self.text@
    }

    /// The UTF-8 encoding of the full original source text.
    pub closed spec fn src_bytes(self) -> Seq<u8> {
        self.text.spec_bytes()
    }

    /// The byte offset of the cursor.
    pub closed spec fn byte_pos(self) -> nat {
        self.cursor as nat
    }

    /// The byte offset always lies on a character boundary of the source,
    /// whose bytes are the UTF-8 encoding of its characters.
    pub open spec fn wf(self) -> bool {
        &&& self.src_bytes() == encode_utf8(self.src())
        &&& self.byte_pos() <= self.src_bytes().len()
        &&& is_char_boundary(self.src_bytes(), self.byte_pos() as int)
    }

    /// The characters already produced: the decoding of the bytes before
    /// the cursor.
    pub open spec fn consumed_chars(self) -> Seq<char> {
        decode_utf8(self.src_bytes().subrange(0, self.byte_pos() as int))
    }

    /// The characters not yet produced: the decoding of the bytes from the
    /// cursor on.
    pub open spec fn remaining_chars(self) -> Seq<char> {
        decode_utf8(self.src_bytes().subrange(
            self.byte_pos() as int,
            self.src_bytes().len() as int,
        ))
    }

    /// True when `cp` may rewind this cursor: its saved offset lies on a
    /// character boundary of the source.  Every checkpoint saved from a
    /// cursor over the same source is accepted.
    pub open spec fn accepts_checkpoint(self, cp: StrTokensCheckpoint) -> bool {
        &&& cp.pos() <= self.src_bytes().len()
        &&& is_char_boundary(self.src_bytes(), cp.pos() as int)
    }

    /// Return the parsed portion of the text.
    pub fn consumed(&self) -> (r: &'a str)
        requires
            self.wf(),
        ensures
            r@ == self.consumed_chars(),
    {
        let pair = self.text.split_at(self.cursor);
        proof {
            assert(valid_utf8(self.src_bytes()));
            assert(pair.0.spec_bytes() == encode_utf8(pair.0@));
            assert(decode_utf8(encode_utf8(pair.0@)) == pair.0@);
        }
        pair.0
    }

    /// Return the unparsed remainder of the text.
    pub fn remaining(&self) -> (r: &'a str)
        requires
            self.wf(),
        ensures
            r@ == self.remaining_chars(),
    {
        let pair = self.text.split_at(self.cursor);
        proof {
            assert(valid_utf8(self.src_bytes()));
            assert(pair.1.spec_bytes() == encode_utf8(pair.1@));
            assert(decode_utf8(encode_utf8(pair.1@)) == pair.1@);
        }
        pair.1
    }

    /// Produce the next character, or report exhaustion without moving.
    ///
    /// The character is decoded from the bytes between the current offset
    /// and the next character boundary, found by scanning forward one byte
    /// at a time; the offset then advances to that boundary.
    pub fn next(&mut self) -> (r: Option<char>)
        requires
            old(self).wf(),
        ensures
            final(self).wf(),
            final(self).src() == old(self).src(),
            final(self).src_bytes() == old(self).src_bytes(),
            match r {
                Some(c) => {
                    &&& old(self).remaining_chars().len() > 0
                    &&& c == old(self).remaining_chars()[0]
                    &&& c == old(self).src()[old(self).consumed_chars().len() as int]
                    &&& final(self).consumed_chars() == old(self).consumed_chars().push(c)
                    &&& final(self).remaining_chars() == old(self).remaining_chars().drop_first()
                    &&& final(self).byte_pos() == old(self).byte_pos() + encode_scalar(
                        c as u32,
                    ).len()
                },
                None => {
                    &&& old(self).remaining_chars().len() == 0
                    &&& old(self).byte_pos() == old(self).src_bytes().len()
                    &&& *final(self) == *old(self)
                },
            },
    {
        let ghost sb = self.text.spec_bytes();
        let bytes = self.text.as_bytes();
        let len = bytes.len();
        proof {
            assert(bytes@ == sb);
            assert(valid_utf8(sb));
            assert(len == sb.len());
        }
        if self.cursor >= len {
            proof {
                assert(sb.subrange(self.cursor as int, sb.len() as int) =~= Seq::<u8>::empty());
                assert(self.remaining_chars().len() == 0);
            }
            return None;
        }
        let ghost start = self.cursor as int;
        let mut boundary: usize = self.cursor + 1;
        while !self.text.is_char_boundary(boundary)
            invariant
                valid_utf8(sb),
                sb == self.text.spec_bytes(),
                sb.len() <= usize::MAX,
                start < boundary <= sb.len(),
                forall|j: int| start < j < boundary ==> !is_char_boundary(sb, j),
            decreases sb.len() - boundary,
        {
            proof {
                vstd::utf8::is_char_boundary_start_end_of_seq(sb);
                assert(boundary < sb.len());
            }
            boundary = boundary + 1;
        }
        let ghost rest_b = sb.subrange(start, sb.len() as int);
        proof {
            lemma_next_boundary(sb, start, boundary as int);
        }
        let offset = boundary - self.cursor;
        let rest_str = self.text.split_at(self.cursor).1;
        proof {
            assert(rest_str.spec_bytes() == rest_b);
            assert(is_char_boundary(rest_str.spec_bytes(), offset as int));
        }
        let chunk = rest_str.split_at(offset).0;
        proof {
            lemma_decode_take_first(rest_b);
            assert(chunk.spec_bytes() =~= take_first_scalar(rest_b));
            assert(decode_utf8(encode_utf8(chunk@)) == chunk@);
            assert(chunk@ == seq![decode_first_scalar(rest_b) as char]);
        }
        let c = chunk.get_char(0);
        let ghost pre = *self;
        self.cursor = boundary;
        proof {
            lemma_decode_first(rest_b);
            let n = sb.len() as int;
            let cb = boundary as int;
            let a_old = pre.consumed_chars();
            let r_old = pre.remaining_chars();
            let a_new = self.consumed_chars();
            let r_new = self.remaining_chars();
            assert(pop_first_scalar(rest_b) =~= sb.subrange(cb, n));
            assert(r_new == r_old.drop_first());
            assert(c == r_old[0]);
            vstd::utf8::decode_utf8_split(sb, start);
            vstd::utf8::decode_utf8_split(sb, cb);
            assert(decode_utf8(sb) == pre.src());
            assert(decode_utf8(sb) == a_old + r_old);
            assert(decode_utf8(sb) == a_new + r_new);
            assert(r_old =~= seq![c] + r_new);
            assert(a_old + r_old =~= a_old.push(c) + r_new);
            assert(a_new.len() == a_old.len() + 1);
            assert forall|i: int| 0 <= i < a_new.len() implies a_new[i] == a_old.push(c)[i] by {
                assert(a_new[i] == (a_new + r_new)[i]);
                assert((a_old.push(c) + r_new)[i] == a_old.push(c)[i]);
            }
            assert(a_new =~= a_old.push(c));
            assert(pre.src()[a_old.len() as int] == c);
            vstd::utf8::decode_utf8_first_scalar(rest_b);
            assert(encode_scalar(c as u32) == take_first_scalar(rest_b));
            assert(encode_scalar(c as u32).len() == cb - start);
        }
        Some(c)
    }

    /// Capture the current byte offset as an opaque checkpoint.
    pub fn save_checkpoint(&self) -> (cp: StrTokensCheckpoint)
        requires
            self.wf(),
        ensures
            cp.pos() == self.byte_pos(),
            self.accepts_checkpoint(cp),
    {
        StrTokensCheckpoint(self.cursor)
    }

    /// Reset the cursor to a previously saved position.  No decoding
    /// happens on rewind; the offset is restored directly, and stays on a
    /// character boundary because accepted checkpoints only hold such
    /// offsets.
    pub fn rewind_to_checkpoint(&mut self, checkpoint: StrTokensCheckpoint)
        requires
            old(self).wf(),
            old(self).accepts_checkpoint(checkpoint),
        ensures
            final(self).wf(),
            final(self).src() == old(self).src(),
            final(self).src_bytes() == old(self).src_bytes(),
            final(self).byte_pos() == checkpoint.pos(),
    {
        self.cursor = checkpoint.0;
    }

    /// A value that is already a cursor converts to itself.
    pub fn into_tokens(self) -> (t: Self)
        ensures
            t == self,
    {
        self
    }

    /// Recover the full original source text, regardless of how much has
    /// been consumed.
    pub fn into_source(self) -> (r: &'a str)
        ensures
            r@ == self.src(),
    {
        self.text
    }
}

/// Convert borrowed text into a cursor positioned at its start.
pub fn into_tokens<'a>(text: &'a str) -> (t: StrTokens<'a>)
    ensures
        t.wf(),
        t.src() == text@,
        t.byte_pos() == 0,
        t.consumed_chars() == Seq::<char>::empty(),
        t.remaining_chars() == text@,
{
    let t = StrTokens { text: text, cursor: 0 };
    proof {
        assert(t.src_bytes() == encode_utf8(text@));
        assert(valid_utf8(t.src_bytes()));
        assert(t.src_bytes().subrange(0, 0) =~= Seq::<u8>::empty());
        assert(t.consumed_chars() =~= Seq::<char>::empty());
        assert(t.src_bytes().subrange(0, t.src_bytes().len() as int) =~= t.src_bytes());
        assert(decode_utf8(encode_utf8(text@)) == text@);
        assert(t.remaining_chars() == text@);
    }
    t
}

/// Law: at every position, the consumed prefix followed by the remaining
/// suffix is exactly the original text.
pub proof fn lemma_consumed_remaining_concat<'a>(t: StrTokens<'a>)
    requires
        t.wf(),
    ensures
        t.consumed_chars() + t.remaining_chars() == t.src(),
{
    let sb = t.src_bytes();
    assert(valid_utf8(sb));
    vstd::utf8::decode_utf8_split(sb, t.byte_pos() as int);
    assert(decode_utf8(sb) == t.src());
}

/// Law: the views a cursor presents depend only on its source bytes and
/// its byte offset.  Rewinding to a checkpoint therefore restores the
/// consumed and remaining views to exactly what they were when the
/// checkpoint was saved, however many characters were produced in between.
pub proof fn lemma_position_determines_views<'a, 'b>(
    at_save: StrTokens<'a>,
    rewound: StrTokens<'b>,
)
    requires
        rewound.src_bytes() == at_save.src_bytes(),
        rewound.byte_pos() == at_save.byte_pos(),
    ensures
        rewound.consumed_chars() == at_save.consumed_chars(),
        rewound.remaining_chars() == at_save.remaining_chars(),
{
}

/// A nonempty valid UTF-8 sequence starts with a well-formed scalar
/// encoding of one to four bytes.
proof fn lemma_first_scalar_facts(bytes: Seq<u8>)
    requires
        valid_utf8(bytes),
        bytes.len() > 0,
    ensures
        valid_first_scalar(bytes),
        1 <= length_of_first_scalar(bytes) <= bytes.len(),
{
    reveal_with_fuel(valid_utf8, 1);
}

/// No offset strictly inside the first scalar's encoding is a character
/// boundary.
proof fn lemma_interior_not_boundary(bytes: Seq<u8>, k: int)
    requires
        valid_utf8(bytes),
        bytes.len() > 0,
        0 < k < length_of_first_scalar(bytes),
    ensures
        !is_char_boundary(bytes, k),
{
    lemma_first_scalar_facts(bytes);
    reveal_with_fuel(is_char_boundary, 2);
}

/// The offset just past the first scalar's encoding is a character
/// boundary.
proof fn lemma_first_scalar_end_is_boundary(bytes: Seq<u8>)
    requires
        valid_utf8(bytes),
        bytes.len() > 0,
    ensures
        is_char_boundary(bytes, length_of_first_scalar(bytes)),
{
    lemma_first_scalar_facts(bytes);
    reveal_with_fuel(is_char_boundary, 2);
}

/// Decoding a nonempty valid UTF-8 sequence yields its first scalar as a
/// character followed by the decoding of the rest.
proof fn lemma_decode_first(bytes: Seq<u8>)
    requires
        valid_utf8(bytes),
        bytes.len() > 0,
    ensures
        decode_utf8(bytes).len() > 0,
        decode_utf8(bytes)[0] == decode_first_scalar(bytes) as char,
        decode_utf8(bytes).drop_first() == decode_utf8(pop_first_scalar(bytes)),
{
    reveal_with_fuel(decode_utf8, 1);
    assert(decode_utf8(bytes).drop_first() =~= decode_utf8(pop_first_scalar(bytes)));
}

/// The bytes of the first scalar's encoding alone are valid UTF-8 and
/// decode to exactly that one character.
proof fn lemma_decode_take_first(bytes: Seq<u8>)
    requires
        valid_utf8(bytes),
        bytes.len() > 0,
    ensures
        valid_utf8(take_first_scalar(bytes)),
        decode_utf8(take_first_scalar(bytes)) == seq![decode_first_scalar(bytes) as char],
{
    lemma_first_scalar_facts(bytes);
    let l = length_of_first_scalar(bytes);
    let take = take_first_scalar(bytes);
    assert(take.len() == l);
    assert(take[0] == bytes[0]);
    assert(valid_first_scalar(take));
    assert(length_of_first_scalar(take) == l);
    assert(decode_first_scalar(take) == decode_first_scalar(bytes));
    assert(pop_first_scalar(take) =~= Seq::<u8>::empty());
    reveal_with_fuel(valid_utf8, 2);
    assert(valid_utf8(take));
    reveal_with_fuel(decode_utf8, 2);
    assert(decode_utf8(take) =~= seq![decode_first_scalar(bytes) as char]);
}

/// When `boundary` is the first character boundary after `start`, the
/// bytes between the two are exactly the encoding of the first scalar of
/// the suffix that begins at `start`.
proof fn lemma_next_boundary(bytes: Seq<u8>, start: int, boundary: int)
    requires
        valid_utf8(bytes),
        0 <= start < boundary <= bytes.len(),
        is_char_boundary(bytes, start),
        is_char_boundary(bytes, boundary),
        forall|j: int| start < j < boundary ==> !is_char_boundary(bytes, j),
    ensures
        valid_utf8(bytes.subrange(start, bytes.len() as int)),
        boundary - start == length_of_first_scalar(bytes.subrange(start, bytes.len() as int)),
        is_char_boundary(bytes.subrange(start, bytes.len() as int), boundary - start),
{
    let n = bytes.len() as int;
    let rest = bytes.subrange(start, n);
    vstd::utf8::valid_utf8_split(bytes, start);
    assert(valid_utf8(rest));
    lemma_first_scalar_facts(rest);
    let l = length_of_first_scalar(rest);
    lemma_first_scalar_end_is_boundary(rest);
    assert(is_char_boundary(rest, l));
    if start + l < n {
        vstd::utf8::is_char_boundary_iff_not_is_continuation_byte(rest, l);
        assert(rest[l] == bytes[start + l]);
        vstd::utf8::is_char_boundary_iff_not_is_continuation_byte(bytes, start + l);
        assert(is_char_boundary(bytes, start + l));
    } else {
        vstd::utf8::is_char_boundary_start_end_of_seq(bytes);
        assert(is_char_boundary(bytes, start + l));
    }
    if boundary < start + l {
        let k = boundary - start;
        lemma_interior_not_boundary(rest, k);
        vstd::utf8::is_char_boundary_iff_not_is_continuation_byte(rest, k);
        assert(rest[k] == bytes[boundary]);
        vstd::utf8::is_char_boundary_iff_not_is_continuation_byte(bytes, boundary);
        assert(false);
    }
    if boundary > start + l {
        assert(!is_char_boundary(bytes, start + l));
        assert(false);
    }
}

} // verus!
