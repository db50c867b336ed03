//! Whitespace in recognised text.

use vstd::prelude::*;
use vstd::string::*;
use vstd::std_specs::iter::IteratorSpec;

verus! {

/// A white-space character of Unicode.
pub open spec fn is_space(c: char) -> bool {
    let u = c as u32;
    ||| 0x09 <= u <= 0x0D
    ||| u == 0x20
    ||| u == 0x85
    ||| u == 0xA0
    ||| u == 0x1680
    ||| 0x2000 <= u <= 0x200A
    ||| u == 0x2028
    ||| u == 0x2029
    ||| u == 0x202F
    ||| u == 0x205F
    ||| u == 0x3000
}

/// A character of the Han, Hiragana or Katakana blocks: kana, the phonetic
/// extensions of katakana and its half-width forms, and the unified and
/// compatibility ideographs with their extensions.
pub open spec fn is_cjk(c: char) -> bool {
    let u = c as u32;
    ||| 0x3040 <= u <= 0x30FF
    ||| 0x31F0 <= u <= 0x31FF
    ||| 0xFF66 <= u <= 0xFF9F
    ||| 0x3400 <= u <= 0x4DBF
    ||| 0x4E00 <= u <= 0x9FFF
    ||| 0xF900 <= u <= 0xFAFF
    ||| 0x20000 <= u <= 0x2FA1F
}

/// One of the first `k` characters is a Han, Hiragana or Katakana
/// character.
pub open spec fn has_cjk(text: Seq<char>, k: int) -> bool {
    exists|i: int| 0 <= i < k && i < text.len() && is_cjk(#[trigger] text[i])
}

/// The first `k` characters without the white space among them.
pub open spec fn without_spaces(text: Seq<char>, k: int) -> Seq<char>
    decreases k,
{
    if k <= 0 {
        Seq::empty()
    } else {
        let rest = without_spaces(text, k - 1);
        if is_space(text[k - 1]) {
            rest
        } else {
            rest.push(text[k - 1])
        }
    }
}

/// The text as it is kept: text that holds a Han, Hiragana or Katakana
/// character loses all white space, other text stays as it is.
pub open spec fn stripped(text: Seq<char>) -> Seq<char> {
    if has_cjk(text, text.len() as int) {
        without_spaces(text, text.len() as int)
    } else {
        text
    }
}

/// `String::push` appends one character.
pub assume_specification[ String::push ](s: &mut String, c: char)
    ensures
        final(s)@ == old(s)@.push(c),
;

/// Tests `is_space`.
pub fn char_is_space(c: char) -> (space: bool)
    ensures
        space == is_space(c),
{
    let u: u32 = c as u32;
    (0x09 <= u && u <= 0x0D) || u == 0x20 || u == 0x85 || u == 0xA0 || u == 0x1680 || (0x2000 <= u
        && u <= 0x200A) || u == 0x2028 || u == 0x2029 || u == 0x202F || u == 0x205F || u == 0x3000
}

/// Tests `is_cjk`.
pub fn char_is_cjk(c: char) -> (cjk: bool)
    ensures
        cjk == is_cjk(c),
{
    let u: u32 = c as u32;
    (0x3040 <= u && u <= 0x30FF) || (0x31F0 <= u && u <= 0x31FF) || (0xFF66 <= u && u <= 0xFF9F)
        || (0x3400 <= u && u <= 0x4DBF) || (0x4E00 <= u && u <= 0x9FFF) || (0xF900 <= u && u
        <= 0xFAFF) || (0x20000 <= u && u <= 0x2FA1F)
}

/// Removes the white space from text that holds a Han, Hiragana or Katakana
/// character, and copies other text unchanged.
pub fn strip_whitespace(text: &str) -> (kept: String)
    ensures
        kept@ == stripped(text@),
{
    let mut cjk: bool = false;
    let mut bare: String = String::new();
    let mut rest = text.chars();
    let ghost mut seen: int = 0;
    loop
        invariant
            0 <= seen <= text@.len(),
            rest.remaining() == text@.subrange(seen, text@.len() as int),
            cjk == has_cjk(text@, seen),
            bare@ == without_spaces(text@, seen),
        ensures
            seen == text@.len(),
            cjk == has_cjk(text@, seen),
            bare@ == without_spaces(text@, seen),
        decreases text@.len() - seen,
    {
        match rest.next() {
            Some(c) => {
                assert(c == text@[seen]);
                if char_is_cjk(c) {
                    cjk = true;
                }
                if !char_is_space(c) {
                    bare.push(c);
                }
                proof {
                    assert(text@.subrange(seen, text@.len() as int).drop_first() =~= text@.subrange(
                        seen + 1,
                        text@.len() as int,
                    ));
                    seen = seen + 1;
                }
            },
            None => {
                break;
            },
        }
    }
    if cjk {
        bare
    } else {
        String::from_str(text)
    }
}

} // verus!
