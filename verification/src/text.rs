//! Characters, strings and lines: the small vocabulary that the lexer, the
//! serializer and the configuration files share.

use vstd::prelude::*;
use vstd::string::StringExecFns;

verus! {

/// The characters with the Unicode property `White_Space`.
pub open spec fn is_whitespace(c: char) -> bool {
    ||| '\u{9}' <= c <= '\u{d}'
    ||| c == ' '
    ||| c == '\u{85}'
    ||| c == '\u{a0}'
    ||| c == '\u{1680}'
    ||| '\u{2000}' <= c <= '\u{200a}'
    ||| c == '\u{2028}'
    ||| c == '\u{2029}'
    ||| c == '\u{202f}'
    ||| c == '\u{205f}'
    ||| c == '\u{3000}'
}

/// Whether `c` is whitespace.
pub fn char_is_whitespace(c: char) -> (b: bool)
    ensures
        b == is_whitespace(c),
{
    ('\u{9}' <= c && c <= '\u{d}') || c == ' ' || c == '\u{85}' || c == '\u{a0}' || c
        == '\u{1680}' || ('\u{2000}' <= c && c <= '\u{200a}') || c == '\u{2028}' || c
        == '\u{2029}' || c == '\u{202f}' || c == '\u{205f}' || c == '\u{3000}'
}

/// Appends one character to a string, as `String::push` does.
#[verifier::external_body]
pub(crate) fn push_char(s: &mut String, c: char)
    ensures
        final(s)@ == old(s)@.push(c),
{
    s.push(c)
}

/// The characters of `s`, one element each.
pub fn to_chars(s: &str) -> (chars: Vec<char>)
    ensures
        chars@ == s@,
{
    let mut chars: Vec<char> = Vec::new();
    for c in it: s.chars()
        invariant
            it.seq() == s@,
            chars@ == s@.take(it.index() as int),
    {
        chars.push(c);
    }
    chars
}

/// The string made of `chars[from..to]`.
pub fn from_chars(chars: &Vec<char>, from: usize, to: usize) -> (s: String)
    requires
        from <= to <= chars.len(),
    ensures
        s@ == chars@.subrange(from as int, to as int),
{
    let mut s = String::new();
    let mut i: usize = from;
    while i < to
        invariant
            from <= i <= to <= chars.len(),
            s@ == chars@.subrange(from as int, i as int),
        decreases to - i,
    {
        push_char(&mut s, chars[i]);
        i += 1;
    }
    s
}

/// `line` without the carriage return that ends it, if one does.
pub open spec fn without_trailing_cr(line: Seq<char>) -> Seq<char> {
    if line.len() > 0 && line.last() == '\r' {
        line.drop_last()
    } else {
        line
    }
}

/// The lines of `rest`, where `current` holds the part of the first line
/// that came before `rest`.
pub open spec fn split_from(current: Seq<char>, rest: Seq<char>) -> Seq<Seq<char>>
    decreases rest.len(),
{
    if rest.len() == 0 {
        if current.len() == 0 {
            Seq::empty()
        } else {
            seq![current]
        }
    } else if rest[0] == '\n' {
        seq![without_trailing_cr(current)] + split_from(Seq::empty(), rest.drop_first())
    } else {
        split_from(current.push(rest[0]), rest.drop_first())
    }
}

/// The lines of a text. A line ends at a line feed, or at the end of the
/// text; the line feed, and a carriage return directly before it, are not
/// part of the line. A text that ends with a line feed has no empty line
/// after it.
pub open spec fn split_lines(text: Seq<char>) -> Seq<Seq<char>> {
    split_from(Seq::empty(), text)
}

/// The text that holds each of `lines` followed by a line feed.
pub open spec fn join_lines(lines: Seq<Seq<char>>) -> Seq<char>
    decreases lines.len(),
{
    if lines.len() == 0 {
        Seq::empty()
    } else {
        join_lines(lines.drop_last()) + lines.last().push('\n')
    }
}

/// Splits a text into its lines.
pub fn lines(text: &str) -> (result: Vec<String>)
    ensures
        result.deep_view() == split_lines(text@),
{
    let mut result: Vec<String> = Vec::new();
    let mut current = String::new();
    // a carriage return that was read but not yet stored in `current`
    let mut pending_cr = false;
    assert(result.deep_view() =~= Seq::<Seq<char>>::empty());
    assert(text@.skip(0) =~= text@);
    for c in it: text.chars()
        invariant
            it.seq() == text@,
            !pending_cr ==> without_trailing_cr(current@) == current@,
            split_lines(text@) == result.deep_view() + split_from(
                if pending_cr {
                    current@.push('\r')
                } else {
                    current@
                },
                text@.skip(it.index() as int),
            ),
    {
        let ghost rest = text@.skip(it.index() as int);
        let ghost before = result.deep_view();
        let ghost logical = if pending_cr {
            current@.push('\r')
        } else {
            current@
        };
        assert(rest.len() > 0 && rest[0] == c);
        assert(rest.drop_first() =~= text@.skip(it.index() + 1));
        if c == '\n' {
            assert(without_trailing_cr(logical) == current@) by {
                if pending_cr {
                    assert(logical.drop_last() =~= current@);
                }
            }
            result.push(current);
            current = String::new();
            pending_cr = false;
            assert(result.deep_view() =~= before + seq![without_trailing_cr(logical)]);
            assert(before + (seq![without_trailing_cr(logical)] + split_from(
                Seq::empty(),
                rest.drop_first(),
            )) =~= (before + seq![without_trailing_cr(logical)]) + split_from(
                Seq::empty(),
                rest.drop_first(),
            ));
        } else {
            if pending_cr {
                push_char(&mut current, '\r');
            }
            if c == '\r' {
                pending_cr = true;
            } else {
                pending_cr = false;
                push_char(&mut current, c);
            }
        }
    }
    assert(text@.skip(text@.len() as int) =~= Seq::<char>::empty());
    if pending_cr {
        push_char(&mut current, '\r');
    }
    let ghost before = result.deep_view();
    if !current.as_str().is_empty() {
        result.push(current);
        assert(result.deep_view() =~= before + seq![current@]);
    } else {
        assert(before + Seq::<Seq<char>>::empty() =~= before);
    }
    result
}

/// Joins lines into one text, each line followed by a line feed.
pub fn join(lines: &Vec<String>) -> (text: String)
    ensures
        text@ == join_lines(lines.deep_view()),
{
    let mut text = String::new();
    let mut i: usize = 0;
    while i < lines.len()
        invariant
            i <= lines.len(),
            text@ == join_lines(lines.deep_view().take(i as int)),
        decreases lines.len() - i,
    {
        let ghost prefix = lines.deep_view().take(i + 1);
        assert(prefix.drop_last() == lines.deep_view().take(i as int));
        assert(prefix.last() == lines[i as int]@);
        text.append(lines[i].as_str());
        push_char(&mut text, '\n');
        i += 1;
    }
    assert(lines.deep_view().take(i as int) == lines.deep_view());
    text
}

/// The text ends with a line feed, unless it is empty, and no line feed
/// follows a carriage return: the form in which `join_lines` writes lines
/// that hold neither.
pub open spec fn is_plain_text(text: Seq<char>) -> bool {
    &&& text.len() > 0 ==> text.last() == '\n'
    &&& forall|i: int| 0 < i < text.len() && #[trigger] text[i] == '\n' ==> text[i - 1] != '\r'
}

/// The text of a first line and of more lines is the first line, a line
/// feed, and the text of the other lines.
pub proof fn lemma_join_first(first: Seq<char>, more: Seq<Seq<char>>)
    ensures
        join_lines(seq![first] + more) == first.push('\n') + join_lines(more),
    decreases more.len(),
{
    let all = seq![first] + more;
    if more.len() == 0 {
        assert(all.drop_last() =~= Seq::<Seq<char>>::empty());
        assert(all.last() == first);
        assert(join_lines(all.drop_last()) =~= Seq::<char>::empty());
        assert(join_lines(more) =~= Seq::<char>::empty());
        assert(join_lines(all) =~= first.push('\n') + join_lines(more));
    } else {
        assert(all.drop_last() =~= seq![first] + more.drop_last());
        assert(all.last() == more.last());
        lemma_join_first(first, more.drop_last());
        assert(join_lines(all) =~= first.push('\n') + join_lines(more));
    }
}

/// Splitting and joining gives back `current` followed by `rest`, where
/// `rest` ends with a line feed and no line feed follows a carriage return.
proof fn lemma_join_split_from(current: Seq<char>, rest: Seq<char>)
    requires
        rest.len() > 0 ==> rest.last() == '\n',
        rest.len() == 0 ==> current.len() == 0,
        forall|i: int| 0 < i < rest.len() && #[trigger] rest[i] == '\n' ==> rest[i - 1] != '\r',
        rest.len() > 0 && rest[0] == '\n' && current.len() > 0 ==> current.last() != '\r',
    ensures
        join_lines(split_from(current, rest)) == current + rest,
    decreases rest.len(),
{
    if rest.len() == 0 {
        assert(join_lines(split_from(current, rest)) =~= current + rest);
    } else {
        let tail = rest.drop_first();
        assert forall|i: int| 0 < i < tail.len() && #[trigger] tail[i] == '\n' implies tail[i - 1]
            != '\r' by {
            assert(tail[i] == rest[i + 1]);
            assert(tail[i - 1] == rest[i]);
        }
        if tail.len() > 0 {
            assert(tail.last() == rest.last());
            assert(tail[0] == rest[1]);
        }
        if rest[0] == '\n' {
            lemma_join_split_from(Seq::empty(), tail);
            lemma_join_first(current, split_from(Seq::empty(), tail));
            assert(current.push('\n') + (Seq::<char>::empty() + tail) =~= current + rest);
        } else {
            let longer = current.push(rest[0]);
            assert(longer.last() == rest[0]);
            lemma_join_split_from(longer, tail);
            assert(longer + tail =~= current + rest);
        }
    }
}

/// Splitting a text into lines and joining the lines gives back the text,
/// if it ends with a line feed and no line feed follows a carriage return.
pub proof fn lemma_join_split(text: Seq<char>)
    requires
        is_plain_text(text),
    ensures
        join_lines(split_lines(text)) == text,
{
    lemma_join_split_from(Seq::empty(), text);
    assert(Seq::<char>::empty() + text =~= text);
}

/// The character for a digit.
pub open spec fn digit(d: nat) -> char
    recommends
        d < 10,
{
    (('0' as u8) + d) as char
}

/// The number `n` in decimal digits.
pub open spec fn decimal(n: nat) -> Seq<char>
    decreases n,
{
    if n < 10 {
        seq![digit(n)]
    } else {
        decimal(n / 10).push(digit(n % 10))
    }
}

/// Appends `n` in decimal digits.
pub fn push_decimal(s: &mut String, n: u128)
    ensures
        final(s)@ == old(s)@ + decimal(n as nat),
    decreases n,
{
    if n >= 10 {
        push_decimal(s, n / 10);
    }
    let d: u8 = (n % 10) as u8;
    push_char(s, (48u8 + d) as char);
    assert(s@ =~= old(s)@ + decimal(n as nat));
}

/// `s` without the whitespace that it begins with.
pub open spec fn trim_start(s: Seq<char>) -> Seq<char>
    decreases s.len(),
{
    if s.len() > 0 && is_whitespace(s[0]) {
        trim_start(s.drop_first())
    } else {
        s
    }
}

/// `s` without the whitespace that it ends with.
pub open spec fn trim_end(s: Seq<char>) -> Seq<char>
    decreases s.len(),
{
    if s.len() > 0 && is_whitespace(s.last()) {
        trim_end(s.drop_last())
    } else {
        s
    }
}

/// `s` without the whitespace at its two ends.
pub open spec fn trimmed(s: Seq<char>) -> Seq<char> {
    trim_end(trim_start(s))
}

/// `s` without the whitespace at its two ends.
pub fn trim(s: &str) -> (result: String)
    ensures
        result@ == trimmed(s@),
{
    let chars = to_chars(s);
    let mut start: usize = 0;
    assert(chars@.skip(0) =~= chars@);
    while start < chars.len() && char_is_whitespace(chars[start])
        invariant
            start <= chars.len(),
            trim_start(chars@) == trim_start(chars@.skip(start as int)),
        decreases chars.len() - start,
    {
        assert(chars@.skip(start as int).drop_first() =~= chars@.skip(start + 1));
        start += 1;
    }
    let ghost rest = chars@.skip(start as int);
    assert(trim_start(chars@) == rest);
    let mut end: usize = chars.len();
    assert(chars@.subrange(start as int, end as int) =~= rest);
    while end > start && char_is_whitespace(chars[end - 1])
        invariant
            start <= end <= chars.len(),
            trim_end(rest) == trim_end(chars@.subrange(start as int, end as int)),
        decreases end,
    {
        assert(chars@.subrange(start as int, end as int).drop_last() =~= chars@.subrange(
            start as int,
            end - 1,
        ));
        end -= 1;
    }
    from_chars(&chars, start, end)
}

/// `a` comes before `b` in the order of strings: at the first position
/// at which the two differ `a` holds the smaller character, or `a` ends
/// there and `b` goes on.
pub open spec fn precedes(a: Seq<char>, b: Seq<char>) -> bool
    decreases a.len(),
{
    if b.len() == 0 {
        false
    } else if a.len() == 0 {
        true
    } else if a[0] != b[0] {
        a[0] < b[0]
    } else {
        precedes(a.drop_first(), b.drop_first())
    }
}

/// Each text comes before the next one in the order of strings.
pub open spec fn strictly_increasing(texts: Seq<Seq<char>>) -> bool {
    forall|i: int| 0 <= i < texts.len() - 1 ==> precedes(#[trigger] texts[i], texts[i + 1])
}

/// Texts that agree up to a position compare as what follows it.
proof fn lemma_precedes_after_common_prefix(a: Seq<char>, b: Seq<char>, n: int)
    requires
        0 <= n <= a.len(),
        n <= b.len(),
        a.take(n) == b.take(n),
    ensures
        precedes(a, b) == precedes(a.skip(n), b.skip(n)),
        (a == b) == (a.skip(n) == b.skip(n)),
    decreases n,
{
    if n > 0 {
        assert(a[0] == a.take(n)[0] && b[0] == b.take(n)[0]);
        let a1 = a.drop_first();
        let b1 = b.drop_first();
        assert(a1.take(n - 1) =~= a.take(n).drop_first());
        assert(b1.take(n - 1) =~= b.take(n).drop_first());
        lemma_precedes_after_common_prefix(a1, b1, n - 1);
        assert(a1.skip(n - 1) =~= a.skip(n));
        assert(b1.skip(n - 1) =~= b.skip(n));
        if a.skip(n) == b.skip(n) {
            assert(a =~= a.take(n) + a.skip(n));
            assert(b =~= b.take(n) + b.skip(n));
        }
    } else {
        assert(a.skip(0) =~= a);
        assert(b.skip(0) =~= b);
    }
}

/// Compares two texts in the order of strings: -1 where `a` comes first,
/// 0 where the two are equal, 1 where `b` comes first.
pub fn compare_texts(a: &str, b: &str) -> (sign: i8)
    ensures
        sign == -1 <==> precedes(a@, b@),
        sign == 0 <==> a@ == b@,
        sign == 1 <==> precedes(b@, a@),
        -1 <= sign <= 1,
{
    let left = to_chars(a);
    let right = to_chars(b);
    let mut i: usize = 0;
    assert(left@.take(0) =~= right@.take(0));
    while i < left.len() && i < right.len()
        invariant
            i <= left.len(),
            i <= right.len(),
            left@ == a@,
            right@ == b@,
            left@.take(i as int) == right@.take(i as int),
        decreases left.len() - i,
    {
        proof {
            lemma_precedes_after_common_prefix(left@, right@, i as int);
            lemma_precedes_after_common_prefix(right@, left@, i as int);
        }
        if left[i] != right[i] {
            assert(left@.skip(i as int)[0] == left[i as int]);
            assert(right@.skip(i as int)[0] == right[i as int]);
            if left[i] < right[i] {
                return -1;
            } else {
                return 1;
            }
        }
        assert(left@.take(i + 1) =~= left@.take(i as int).push(left[i as int]));
        assert(right@.take(i + 1) =~= right@.take(i as int).push(right[i as int]));
        i += 1;
    }
    proof {
        lemma_precedes_after_common_prefix(left@, right@, i as int);
        lemma_precedes_after_common_prefix(right@, left@, i as int);
        if i == left.len() && i == right.len() {
            assert(left@.skip(i as int) =~= right@.skip(i as int));
        }
    }
    if i < right.len() {
        -1
    } else if i < left.len() {
        1
    } else {
        0
    }
}

/// The lines with a line feed between each and the next.
pub open spec fn separated(lines: Seq<Seq<char>>) -> Seq<char>
    decreases lines.len(),
{
    if lines.len() == 0 {
        Seq::empty()
    } else if lines.len() == 1 {
        lines[0]
    } else {
        separated(lines.drop_last()) + seq!['\n'] + lines.last()
    }
}

/// Joins lines into one text, with a line feed between each and the next.
pub fn separate(lines: &Vec<String>) -> (text: String)
    ensures
        text@ == separated(lines.deep_view()),
{
    let mut text = String::new();
    let mut i: usize = 0;
    assert(lines.deep_view().take(0) =~= Seq::<Seq<char>>::empty());
    while i < lines.len()
        invariant
            i <= lines.len(),
            text@ == separated(lines.deep_view().take(i as int)),
        decreases lines.len() - i,
    {
        let ghost prefix = lines.deep_view().take(i + 1);
        assert(prefix.drop_last() =~= lines.deep_view().take(i as int));
        assert(prefix.last() == lines[i as int]@);
        if i > 0 {
            push_char(&mut text, '\n');
        } else {
            assert(text@ =~= Seq::<char>::empty());
            assert(prefix[0] =~= Seq::<char>::empty() + lines[i as int]@);
        }
        text.append(lines[i].as_str());
        i += 1;
    }
    assert(lines.deep_view().take(i as int) =~= lines.deep_view());
    text
}

} // verus!
