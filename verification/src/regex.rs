//! From the title of a step to a regular expression that matches it.

use crate::text::push_char;
use vstd::prelude::*;

verus! {

/// `text` with `.*` in place of each quoted part. `quoted` says whether
/// `text` begins inside a quoted part. A quoted part begins at a double
/// quote and reaches to the next one, or to the end of the text where
/// there is none.
pub open spec fn generalized(text: Seq<char>, quoted: bool) -> Seq<char>
    decreases text.len(),
{
    if text.len() == 0 {
        Seq::empty()
    } else if quoted {
        generalized(text.drop_first(), text[0] != '"')
    } else if text[0] == '"' {
        seq!['.', '*'] + generalized(text.drop_first(), true)
    } else {
        seq![text[0]] + generalized(text.drop_first(), false)
    }
}

/// The regular expression for the title `text`: the whole title, where a
/// quoted part may read anything.
pub open spec fn regex_for(text: Seq<char>) -> Seq<char> {
    seq!['^'] + generalized(text, false) + seq!['$']
}

/// Makes the regular expression that matches the title `text` and the
/// titles that differ from it in their quoted parts.
pub fn make_regex(text: &str) -> (result: String)
    ensures
        result@ == regex_for(text@),
{
    let mut result = String::new();
    push_char(&mut result, '^');
    let mut quoted = false;
    assert(text@.skip(0) =~= text@);
    for ch in it: text.chars()
        invariant
            it.seq() == text@,
            result@ + generalized(text@.skip(it.index() as int), quoted) == seq!['^'] + generalized(
                text@,
                false,
            ),
    {
        let ghost rest = text@.skip(it.index() as int);
        let ghost before = result@;
        assert(rest.len() > 0 && rest[0] == ch);
        assert(rest.drop_first() =~= text@.skip(it.index() + 1));
        if quoted {
            quoted = ch != '"';
        } else if ch == '"' {
            push_char(&mut result, '.');
            push_char(&mut result, '*');
            quoted = true;
            assert(result@ + generalized(rest.drop_first(), true) =~= before + (seq!['.', '*']
                + generalized(rest.drop_first(), true)));
        } else {
            push_char(&mut result, ch);
            assert(result@ + generalized(rest.drop_first(), false) =~= before + (seq![ch]
                + generalized(rest.drop_first(), false)));
        }
    }
    let ghost body = result@;
    assert(text@.skip(text@.len() as int) =~= Seq::<char>::empty());
    assert(body + Seq::<char>::empty() =~= body);
    push_char(&mut result, '$');
    assert(result@ =~= body + seq!['$']);
    result
}

} // verus!
