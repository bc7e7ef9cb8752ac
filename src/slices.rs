//! Borrowing parts of strings.
use vstd::prelude::*;
use vstd::string::{
    StrSliceExecFns, StringExecFns, StringExecFnsIsAscii, StringSliceAdditionalSpecFns,
};
use vstd::utf8::{encode_utf8_valid_utf8, is_char_boundary_iff_not_is_continuation_byte};

verus! {

/// The byte of an ASCII space.
pub const SPACE: u8 = 32;

/// Whether `word` is the first word of `text`, both as UTF-8 bytes: the
/// bytes of `text` up to its first space, or all of them when it has none.
pub open spec fn is_first_word(text: Seq<u8>, word: Seq<u8>) -> bool {
    &&& word.len() <= text.len()
    &&& word == text.subrange(0, word.len() as int)
    &&& forall|j: int| 0 <= j < word.len() ==> text[j] != SPACE
    &&& word.len() < text.len() ==> text[word.len() as int] == SPACE
}

/// The first word of `s`: everything before its first space, or the whole
/// of `s` when it holds no space.
pub fn first_word(s: &str) -> (word: &str)
    ensures
        is_first_word(s.spec_bytes(), word.spec_bytes()),
{
    let bytes = s.as_bytes();
    let mut i: usize = 0;
    while i < bytes.len()
        invariant
            bytes@ == s.spec_bytes(),
            i <= bytes@.len(),
            forall|j: int| 0 <= j < i ==> bytes@[j] != SPACE,
        decreases bytes@.len() - i,
    {
        if bytes[i] == SPACE {
            proof {
                encode_utf8_valid_utf8(s@);
                is_char_boundary_iff_not_is_continuation_byte(bytes@, i as int);
            }
            let (word, _rest) = s.split_at(i);
            return word;
        }
        i += 1;
    }
    assert(s.spec_bytes() == s.spec_bytes().subrange(0, s.spec_bytes().len() as int));
    s
}

/// Takes a few slices of an ASCII string and checks what they hold.
pub fn slices() {
    let s = String::from_str("hello world");
    proof {
        reveal_strlit("hello world");
        reveal_strlit("ell");
        reveal_strlit("hello ");
        reveal_strlit("lo");
    }
    assert(s.is_ascii());
    let slice1 = s.as_str().substring_ascii(1, 4);
    assert(slice1@ == "ell"@);
    let slice2 = s.as_str().substring_ascii(0, 6);
    assert(slice2@ == "hello "@);
    let mut slice3 = s.as_str().substring_ascii(1, 6);
    assert(slice3@.len() == 5);
    slice3 = s.as_str().substring_ascii(3, 5);
    assert(slice3@ == "lo"@);
}

} // verus!
