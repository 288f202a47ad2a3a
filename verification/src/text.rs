use vstd::prelude::*;
use vstd::string::*;
use vstd::utf8::*;

verus! {

/// The byte that encodes a space in UTF-8.
pub const SPACE: u8 = 0x20;

/// `word` is the first word of `text`: the longest prefix of `text` that
/// holds no space. It ends just before the first space of `text`, or is all
/// of `text` where `text` holds no space.
pub open spec fn is_first_word(text: Seq<char>, word: Seq<char>) -> bool {
    &&& word.len() <= text.len()
    &&& word == text.subrange(0, word.len() as int)
    &&& forall|i: int| 0 <= i < word.len() ==> word[i] != ' '
    &&& word.len() < text.len() ==> text[word.len() as int] == ' '
}

/// A space is encoded as the single byte `SPACE`.
proof fn lemma_space_encoding()
    ensures
        encode_scalar(' ' as u32) == seq![SPACE],
{
    assert(leading_byte_width_1(0x20u32) == SPACE) by {
        assert((0x20u32 & 0x7F) as u8 == 0x20u8) by (bit_vector);
    }
}

/// A text that holds a space at index `k` has the byte `SPACE` somewhere in
/// its encoding.
proof fn lemma_space_shows_in_bytes(text: Seq<char>, k: int)
    requires
        0 <= k < text.len(),
        text[k] == ' ',
    ensures
        exists|j: int| 0 <= j < encode_utf8(text).len() && encode_utf8(text)[j] == SPACE,
    decreases text.len(),
{
    let head = encode_scalar(text[0] as u32);
    let rest = encode_utf8(text.drop_first());
    assert(encode_utf8(text) == head + rest);
    if k == 0 {
        lemma_space_encoding();
        assert(encode_utf8(text)[0] == SPACE);
    } else {
        lemma_space_shows_in_bytes(text.drop_first(), k - 1);
        let j = choose|j: int| 0 <= j < rest.len() && rest[j] == SPACE;
        assert(encode_utf8(text)[head.len() + j] == SPACE);
    }
}

/// A text whose encoding begins with the byte `SPACE` begins with a space.
proof fn lemma_leading_space(text: Seq<char>)
    requires
        encode_utf8(text).len() > 0,
        encode_utf8(text)[0] == SPACE,
    ensures
        text.len() > 0,
        text[0] == ' ',
{
    encode_utf8_first_scalar(text);
    let bytes = encode_utf8(text);
    assert(decode_first_scalar(bytes) == 0x20u32) by {
        assert((0x20u8 & 0x7F) as u32 == 0x20u32) by (bit_vector);
    }
    char_u32_cast(text[0], 0x20u32);
}

/// A text has no more than one first word: `is_first_word` pins the word
/// down.
pub proof fn lemma_first_word_unique(text: Seq<char>, one: Seq<char>, other: Seq<char>)
    requires
        is_first_word(text, one),
        is_first_word(text, other),
    ensures
        one == other,
{
    if one.len() < other.len() {
        assert(other[one.len() as int] == text[one.len() as int]);
    } else if other.len() < one.len() {
        assert(one[other.len() as int] == text[other.len() as int]);
    }
    assert(one =~= other);
}

/// Builds the greeting: a buffer that starts as `"Hello"` and then has
/// `" from Rust!!"` appended to it in place.
pub fn greeting() -> (text: String)
    ensures
        text@ == "Hello from Rust!!"@,
{
    let mut text = String::from_str("Hello");
    text.append(" from Rust!!");
    proof {
        reveal_strlit("Hello");
        reveal_strlit(" from Rust!!");
        reveal_strlit("Hello from Rust!!");
        assert(text@ =~= "Hello from Rust!!"@);
    }
    text
}

/// Returns the first word of `s`, borrowed from `s`: the text before its
/// first space, or the whole of `s` where it holds no space.
pub fn first_word(s: &String) -> (word: &str)
    ensures
        is_first_word(s@, word@),
{
    let whole: &str = s.as_str();
    let bytes: &[u8] = whole.as_bytes();
    proof {
        encode_utf8_valid_utf8(s@);
    }
    let mut i: usize = 0;
    while i < bytes.len()
        invariant
            i <= bytes@.len(),
            bytes@ == encode_utf8(s@),
            whole@ == s@,
            valid_utf8(bytes@),
            forall|j: int| 0 <= j < i ==> bytes@[j] != SPACE,
        decreases bytes@.len() - i,
    {
        if bytes[i] == SPACE {
            proof {
                is_char_boundary_iff_not_is_continuation_byte(bytes@, i as int);
            }
            let (head, tail) = whole.split_at(i);
            proof {
                // Both halves are encodings themselves, so the text is the
                // two decoded halves put together.
                assert(encode_utf8(head@) == bytes@.subrange(0, i as int));
                assert(encode_utf8(tail@) == bytes@.subrange(i as int, bytes@.len() as int));
                decode_utf8_split(bytes@, i as int);
                encode_utf8_decode_utf8(s@);
                encode_utf8_decode_utf8(head@);
                encode_utf8_decode_utf8(tail@);
                assert(s@ =~= head@ + tail@);
                lemma_leading_space(tail@);
                assert forall|k: int| 0 <= k < head@.len() implies head@[k] != ' ' by {
                    if head@[k] == ' ' {
                        lemma_space_shows_in_bytes(head@, k);
                    }
                }
                assert(head@ =~= s@.subrange(0, head@.len() as int));
                assert(s@[head@.len() as int] == tail@[0]);
            }
            return head;
        }
        i += 1;
    }
    proof {
        assert forall|k: int| 0 <= k < s@.len() implies s@[k] != ' ' by {
            if s@[k] == ' ' {
                lemma_space_shows_in_bytes(s@, k);
            }
        }
        assert(s@ =~= s@.subrange(0, s@.len() as int));
    }
    whole
}

} // verus!
