//! Whether a label can be embossed with the bundled fonts, given what the
//! fonts say of each of its characters.
use vstd::prelude::*;
use crate::text::{push_all, string_of, chars_of};

verus! {

/// What the bundled fonts offer for one character of a label: whether a
/// font has a glyph with an advance for it, and whether that glyph has an
/// outline with a bounding box.
#[derive(Debug, Clone, Copy, PartialEq, Eq, Structural)]
pub struct GlyphFacts {
    pub renderable: bool,
    pub outlined: bool,
}

/// Why a label cannot be embossed.
#[derive(Debug, Clone, PartialEq, Eq)]
pub enum EmbossingError {
    /// These characters have no glyph, each listed once, in first-seen order.
    Unsupported(Vec<char>),
    /// No character has an outline to emboss.
    NoPrintable,
}

/// The characters with no renderable glyph, each once, in first-seen order.
pub open spec fn missing_characters(text: Seq<char>, facts: Seq<GlyphFacts>) -> Seq<char>
    decreases text.len(),
{
    if text.len() == 0 {
        Seq::empty()
    } else {
        let earlier = missing_characters(text.drop_last(), facts);
        let c = text.last();
        if !facts[text.len() - 1].renderable && !earlier.contains(c) {
            earlier.push(c)
        } else {
            earlier
        }
    }
}

/// Some character has a renderable, outlined glyph.
pub open spec fn has_printable(facts: Seq<GlyphFacts>) -> bool {
    exists|i: int| 0 <= i < facts.len() && #[trigger] facts[i].renderable && facts[i].outlined
}

/// Checks that every character of `text` can be embossed and that at least
/// one has an outline. `glyphs[i]` describes character `i` of `text`.
pub fn validate_embossing_text(text: &str, glyphs: &Vec<GlyphFacts>) -> (r: Result<(), EmbossingError>)
    requires
        glyphs@.len() == text@.len(),
    ensures
        missing_characters(text@, glyphs@).len() > 0 ==> (r matches Err(EmbossingError::Unsupported(chars))
            && chars@ == missing_characters(text@, glyphs@)),
        missing_characters(text@, glyphs@).len() == 0 && !has_printable(glyphs@) ==> r == Err::<(), EmbossingError>(
            EmbossingError::NoPrintable,
        ),
        r is Ok <==> (missing_characters(text@, glyphs@).len() == 0 && has_printable(glyphs@)),
{
    let chars = chars_of(text);
    let mut missing: Vec<char> = Vec::new();
    let mut printable = false;
    let mut i: usize = 0;
    while i < chars.len()
        invariant
            chars@ == text@,
            glyphs@.len() == chars@.len(),
            i <= chars@.len(),
            missing@ == missing_characters(chars@.subrange(0, i as int), glyphs@),
            printable == exists|j: int| 0 <= j < i && #[trigger] glyphs@[j].renderable && glyphs@[j].outlined,
        decreases chars@.len() - i,
    {
        let c = chars[i];
        let facts = glyphs[i];
        proof {
            let next = chars@.subrange(0, i + 1);
            assert(next.drop_last() =~= chars@.subrange(0, i as int));
            assert(next.last() == c);
        }
        if !facts.renderable {
            let mut seen = false;
            let mut k: usize = 0;
            while k < missing.len()
                invariant
                    k <= missing@.len(),
                    seen == exists|m: int| 0 <= m < k && missing@[m] == c,
                decreases missing@.len() - k,
            {
                if missing[k] == c {
                    seen = true;
                }
                k = k + 1;
            }
            if !seen {
                missing.push(c);
            }
        } else if facts.outlined {
            printable = true;
        }
        i = i + 1;
    }
    assert(chars@.subrange(0, i as int) =~= text@);
    if missing.len() > 0 {
        return Err(EmbossingError::Unsupported(missing));
    }
    if !printable {
        return Err(EmbossingError::NoPrintable);
    }
    Ok(())
}

/// How `char`'s `Debug` writes a character: quoted, with escapes.
pub uninterp spec fn char_debug(c: char) -> Seq<char>;

/// `format!("{c:?}")`: the `Debug` form of a character. Only the name is
/// claimed, plus that it is quoted, as the documentation of `char`'s
/// `Debug` shows.
#[verifier::external_body]
fn debug_char(c: char) -> (text: String)
    ensures
        text@ == char_debug(c),
        text@.len() >= 3 && text@[0] == '\'' && text@[text@.len() - 1] == '\'',
{
    format!("{c:?}")
}

/// The listed characters in `Debug` form, separated by ", ".
pub open spec fn debug_list(chars: Seq<char>) -> Seq<char>
    decreases chars.len(),
{
    if chars.len() == 0 {
        Seq::empty()
    } else if chars.len() == 1 {
        char_debug(chars[0])
    } else {
        debug_list(chars.drop_last()) + ", "@ + char_debug(chars.last())
    }
}

impl EmbossingError {
    /// The message shown to the user.
    pub fn message(&self) -> (text: String)
        ensures
            self matches EmbossingError::Unsupported(chars) ==> text@ == "the bundled tray font cannot render "@
                + debug_list(chars@)
                + "; use a place name written with supported Japanese, Latin, Cyrillic, or Vietnamese characters"@,
            self is NoPrintable ==> text@ == "tray label contains no printable characters"@,
    {
        match self {
            EmbossingError::Unsupported(chars) => {
                let mut out = chars_of("the bundled tray font cannot render ");
                let mut i: usize = 0;
                while i < chars.len()
                    invariant
                        i <= chars@.len(),
                        out@ == "the bundled tray font cannot render "@ + debug_list(chars@.subrange(0, i as int)),
                    decreases chars@.len() - i,
                {
                    let ghost before = out@;
                    if i > 0 {
                        out.push(',');
                        out.push(' ');
                    }
                    let piece = debug_char(chars[i]);
                    push_all(&mut out, &chars_of(piece.as_str()));
                    proof {
                        let next = chars@.subrange(0, i + 1);
                        assert(next.drop_last() =~= chars@.subrange(0, i as int));
                        assert(next.last() == chars@[i as int]);
                        reveal_strlit(", ");
                        if i == 0 {
                            assert(next =~= seq![chars@[0]]);
                            assert(debug_list(chars@.subrange(0, 0)) =~= Seq::<char>::empty());
                        }
                        assert(out@ =~= "the bundled tray font cannot render "@ + debug_list(next));
                    }
                    i = i + 1;
                }
                assert(chars@.subrange(0, i as int) =~= chars@);
                push_all(
                    &mut out,
                    &chars_of("; use a place name written with supported Japanese, Latin, Cyrillic, or Vietnamese characters"),
                );
                string_of(&out)
            },
            EmbossingError::NoPrintable => {
                let text = "tray label contains no printable characters";
                text.to_owned()
            },
        }
    }
}

} // verus!
