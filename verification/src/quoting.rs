//! Text as a single word of a shell command, and as a string of AppleScript.

use vstd::prelude::*;
use crate::text::{chars_of, substring};

verus! {

/// A character of a path inside single quotes: a quote ends the quoted part,
/// stands there by itself, and begins the next quoted part.
pub open spec fn quoted_char(c: char) -> Seq<char> {
    if c == '\'' {
        seq!['\'', '\\', '\'', '\'']
    } else {
        seq![c]
    }
}

/// Text inside single quotes.
pub open spec fn quoted_inside(s: Seq<char>) -> Seq<char>
    decreases s.len(),
{
    if s.len() == 0 {
        seq![]
    } else {
        quoted_inside(s.drop_last()) + quoted_char(s.last())
    }
}

/// Text as a word of a shell command.
pub open spec fn quoted(s: Seq<char>) -> Seq<char> {
    seq!['\''] + quoted_inside(s) + seq!['\'']
}

/// Characters that a shell reads as more than themselves outside quotes, or that
/// end a word there.
pub open spec fn is_shell_syntax(c: char) -> bool {
    ||| c == ' ' || c == '\t' || c == '\n' || c == '\r'
    ||| c == '|' || c == '&' || c == ';' || c == '<' || c == '>' || c == '(' || c == ')'
    ||| c == '$' || c == '`' || c == '"' || c == '*' || c == '?' || c == '[' || c == ']'
    ||| c == '#' || c == '~' || c == '=' || c == '%' || c == '{' || c == '}' || c == '!'
}

/// What follows a character.
pub open spec fn led_by(c: char, rest: Option<Seq<char>>) -> Option<Seq<char>> {
    match rest {
        Some(rest) => Some(seq![c] + rest),
        None => None,
    }
}

/// The text that a shell makes of a word, where `inside` tells whether the word
/// goes on inside single quotes. Text that is not one word, or that holds more
/// than plain characters, quoted parts and escaped characters, stands for none.
pub open spec fn shell_word(s: Seq<char>, inside: bool) -> Option<Seq<char>>
    decreases s.len(),
{
    if s.len() == 0 {
        if inside {
            None
        } else {
            Some(seq![])
        }
    } else if s[0] == '\'' {
        shell_word(s.skip(1), !inside)
    } else if inside {
        led_by(s[0], shell_word(s.skip(1), true))
    } else if s[0] == '\\' {
        if s.len() == 1 || s[1] == '\n' {
            None
        } else {
            led_by(s[1], shell_word(s.skip(2), false))
        }
    } else if is_shell_syntax(s[0]) {
        None
    } else {
        led_by(s[0], shell_word(s.skip(1), false))
    }
}

/// A character of an AppleScript string.
pub open spec fn apple_char(c: char) -> Seq<char> {
    if c == '"' || c == '\\' {
        seq!['\\', c]
    } else {
        seq![c]
    }
}

/// Text between the quotes of an AppleScript string.
pub open spec fn apple_inside(s: Seq<char>) -> Seq<char>
    decreases s.len(),
{
    if s.len() == 0 {
        seq![]
    } else {
        apple_inside(s.drop_last()) + apple_char(s.last())
    }
}

/// Text as an AppleScript string.
pub open spec fn apple_string(s: Seq<char>) -> Seq<char> {
    seq!['"'] + apple_inside(s) + seq!['"']
}

/// The text that an AppleScript string stands for, from behind its first quote
/// on. What goes on behind its last quote stands for none.
pub open spec fn apple_text(s: Seq<char>) -> Option<Seq<char>>
    decreases s.len(),
{
    if s.len() == 0 {
        None
    } else if s[0] == '"' {
        if s.len() == 1 {
            Some(seq![])
        } else {
            None
        }
    } else if s[0] == '\\' {
        if s.len() > 1 && (s[1] == '"' || s[1] == '\\') {
            led_by(s[1], apple_text(s.skip(2)))
        } else {
            None
        }
    } else {
        led_by(s[0], apple_text(s.skip(1)))
    }
}

/// Writes text as a word of a shell command.
pub fn shell_quote(s: &str) -> (r: String)
    ensures
        r@ == quoted(s@),
{
    proof {
        reveal_strlit("'");
        reveal_strlit("'\\''");
        assert("'"@ =~= seq!['\'']);
        assert("'\\''"@ =~= seq!['\'', '\\', '\'', '\'']);
    }
    let chars = chars_of(s);
    let mut out = "'".to_owned();
    let mut i: usize = 0;
    while i < chars.len()
        invariant
            i <= chars@.len(),
            chars@ == s@,
            "'\\''"@ == seq!['\'', '\\', '\'', '\''],
            out@ == seq!['\''] + quoted_inside(s@.take(i as int)),
        decreases chars@.len() - i,
    {
        let ghost before = out@;
        if chars[i] == '\'' {
            out.append("'\\''");
        } else {
            out.append(&substring(s, i, i + 1));
            assert(s@.subrange(i as int, i + 1) =~= seq![s@[i as int]]);
        }
        assert(s@.take(i + 1).drop_last() =~= s@.take(i as int));
        assert(out@ =~= before + quoted_char(s@[i as int]));
        i += 1;
    }
    assert(s@.take(i as int) =~= s@);
    out.append("'");
    out
}

/// Writes text as an AppleScript string.
pub fn apple_quote(s: &str) -> (r: String)
    ensures
        r@ == apple_string(s@),
{
    proof {
        reveal_strlit("\"");
        reveal_strlit("\\");
        assert("\""@ =~= seq!['"']);
        assert("\\"@ =~= seq!['\\']);
    }
    let chars = chars_of(s);
    let mut out = "\"".to_owned();
    let mut i: usize = 0;
    while i < chars.len()
        invariant
            i <= chars@.len(),
            chars@ == s@,
            "\\"@ == seq!['\\'],
            out@ == seq!['"'] + apple_inside(s@.take(i as int)),
        decreases chars@.len() - i,
    {
        let ghost before = out@;
        if chars[i] == '"' || chars[i] == '\\' {
            out.append("\\");
        }
        out.append(&substring(s, i, i + 1));
        assert(s@.subrange(i as int, i + 1) =~= seq![s@[i as int]]);
        assert(s@.take(i + 1).drop_last() =~= s@.take(i as int));
        assert(out@ =~= before + apple_char(s@[i as int]));
        i += 1;
    }
    assert(s@.take(i as int) =~= s@);
    out.append("\"");
    out
}

/// `front` before the text of a word.
pub open spec fn led_by_all(front: Seq<char>, rest: Option<Seq<char>>) -> Option<Seq<char>> {
    match rest {
        Some(rest) => Some(front + rest),
        None => None,
    }
}

proof fn lemma_quoted_inside(s: Seq<char>, rest: Seq<char>)
    ensures
        shell_word(quoted_inside(s) + rest, true) == led_by_all(s, shell_word(rest, true)),
    decreases s.len(),
{
    if s.len() == 0 {
        assert(quoted_inside(s) + rest =~= rest);
        if let Some(text) = shell_word(rest, true) {
            assert(s + text =~= text);
        }
    } else {
        let c = s.last();
        let init = s.drop_last();
        let next = quoted_char(c) + rest;
        lemma_quoted_inside(init, next);
        assert(quoted_inside(s) + rest =~= quoted_inside(init) + next);
        assert(shell_word(next, true) == led_by(c, shell_word(rest, true))) by {
            if c == '\'' {
                assert(next.skip(1)[0] == '\\' && next.skip(1)[1] == '\'');
                assert(next.skip(1).skip(2) =~= seq!['\''] + rest);
                assert((seq!['\''] + rest).skip(1) =~= rest);
                assert(shell_word(seq!['\''] + rest, false) == shell_word(rest, true));
                assert(shell_word(next.skip(1), false) == led_by(c, shell_word(rest, true)));
            } else {
                assert(next.skip(1) =~= rest);
            }
        }
        if let Some(text) = shell_word(rest, true) {
            assert(init + (seq![c] + text) =~= s + text);
        }
    }
}

/// Quoted text is one word of a shell command and stands for the text, whatever
/// characters it holds; what follows it is read as if it stood alone.
pub proof fn law_quoted_is_one_word(s: Seq<char>, rest: Seq<char>)
    ensures
        shell_word(quoted(s), false) == Some(s),
        shell_word(quoted(s) + rest, false) == led_by_all(s, shell_word(rest, false)),
{
    lemma_quoted_rest(s, rest);
    lemma_quoted_rest(s, seq![]);
    assert(quoted(s) + seq![] =~= quoted(s));
    assert(s + seq![] =~= s);
}

proof fn lemma_quoted_rest(s: Seq<char>, rest: Seq<char>)
    ensures
        shell_word(quoted(s) + rest, false) == led_by_all(s, shell_word(rest, false)),
{
    let end = seq!['\''] + rest;
    let all = quoted(s) + rest;
    lemma_quoted_inside(s, end);
    assert(end.skip(1) =~= rest);
    assert(all.skip(1) =~= quoted_inside(s) + end);
}

proof fn lemma_apple_inside(s: Seq<char>, rest: Seq<char>)
    ensures
        apple_text(apple_inside(s) + rest) == led_by_all(s, apple_text(rest)),
    decreases s.len(),
{
    if s.len() == 0 {
        assert(apple_inside(s) + rest =~= rest);
        if let Some(text) = apple_text(rest) {
            assert(s + text =~= text);
        }
    } else {
        let c = s.last();
        let init = s.drop_last();
        let next = apple_char(c) + rest;
        lemma_apple_inside(init, next);
        assert(apple_inside(s) + rest =~= apple_inside(init) + next);
        assert(apple_text(next) == led_by(c, apple_text(rest))) by {
            if c == '"' || c == '\\' {
                assert(next.skip(2) =~= rest);
            } else {
                assert(next.skip(1) =~= rest);
            }
        }
        if let Some(text) = apple_text(rest) {
            assert(init + (seq![c] + text) =~= s + text);
        }
    }
}

/// An AppleScript string stands for the text that it was made from, whatever
/// characters it holds.
pub proof fn law_apple_string_stands_for_text(s: Seq<char>)
    ensures
        apple_string(s)[0] == '"',
        apple_text(apple_string(s).skip(1)) == Some(s),
{
    lemma_apple_inside(s, seq!['"']);
    assert(apple_string(s).skip(1) =~= apple_inside(s) + seq!['"']);
    assert(s + seq![] =~= s);
}

proof fn lemma_quoted_inside_plain(s: Seq<char>)
    requires
        !s.contains('\''),
    ensures
        quoted_inside(s) == s,
    decreases s.len(),
{
    if s.len() > 0 {
        let init = s.drop_last();
        assert(!init.contains('\'')) by {
            assert forall|i: int| 0 <= i < init.len() implies init[i] != '\'' by {
                assert(init[i] == s[i]);
            }
        }
        lemma_quoted_inside_plain(init);
        assert(s.contains(s[s.len() - 1]));
        assert(quoted_inside(s) =~= s);
    } else {
        assert(quoted_inside(s) =~= s);
    }
}

/// Text without a quote is quoted as it is.
pub proof fn law_plain_text_is_quoted_as_it_is(s: Seq<char>)
    requires
        !s.contains('\''),
    ensures
        quoted(s) == seq!['\''] + s + seq!['\''],
{
    lemma_quoted_inside_plain(s);
}

} // verus!
