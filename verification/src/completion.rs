//! What the line editor offers while a command is typed: completions, a hint
//! and the colouring of prompt and hint.

use vstd::prelude::*;
use crate::text::{views, starts_with, chars_from, concat3};

verus! {

/// What is left of `command` to type once `line` has been typed, if `command`
/// begins with `line`.
pub open spec fn rest_after(command: Seq<char>, line: Seq<char>) -> Seq<char> {
    command.skip(line.len() as int)
}

/// For every command that begins with `line`, in order, the part that is
/// left to type.
pub open spec fn completions(commands: Seq<Seq<char>>, line: Seq<char>) -> Seq<Seq<char>>
    decreases commands.len(),
{
    if commands.len() == 0 {
        Seq::<Seq<char>>::empty()
    } else {
        let rest = completions(commands.drop_last(), line);
        if line.is_prefix_of(commands.last()) {
            rest.push(rest_after(commands.last(), line))
        } else {
            rest
        }
    }
}

/// The part left to type of the first command that begins with `line`.
pub open spec fn first_completion(commands: Seq<Seq<char>>, line: Seq<char>) -> Option<Seq<char>>
    decreases commands.len(),
{
    if commands.len() == 0 {
        None
    } else if line.is_prefix_of(commands[0]) {
        Some(rest_after(commands[0], line))
    } else {
        first_completion(commands.drop_first(), line)
    }
}

/// Whether a hint is shown at all: not for an empty line, nor while the
/// cursor (a byte position) stands inside the line.
pub open spec fn hint_shown(line: &str, pos: usize) -> bool {
    line@.len() != 0 && pos >= line.len()
}

/// The completions of `line` among `commands`, with the position at which
/// they are inserted, which is the cursor position.
pub fn complete(commands: &Vec<String>, line: &str, pos: usize) -> (res: (usize, Vec<String>))
    ensures
        res.0 == pos,
        views(res.1@) == completions(views(commands@), line@),
{
    let mut out: Vec<String> = Vec::new();
    let n = commands.len();
    let mut i: usize = 0;
    while i < n
        invariant
            n == commands@.len(),
            i <= n,
            views(out@) == completions(views(commands@).take(i as int), line@),
        decreases n - i,
    {
        let ghost before = views(out@);
        assert(views(commands@).take(i + 1).drop_last() =~= views(commands@).take(i as int));
        assert(views(commands@).take(i + 1).last() == commands@[i as int]@);
        let command = commands[i].as_str();
        if starts_with(command, line) {
            let rest = chars_from(command, line.unicode_len());
            out.push(rest);
            assert(views(out@) =~= before.push(rest_after(commands@[i as int]@, line@)));
        }
        i = i + 1;
    }
    assert(views(commands@).take(n as int) =~= views(commands@));
    (pos, out)
}

/// The hint shown after the cursor: what is left to type of the first command
/// that begins with the line, when the cursor is at the end of a non-empty
/// line.
pub fn hint(commands: &Vec<String>, line: &str, pos: usize) -> (h: Option<String>)
    ensures
        !hint_shown(line, pos) ==> h is None,
        hint_shown(line, pos) ==> match h {
            Some(s) => first_completion(views(commands@), line@) == Some(s@),
            None => first_completion(views(commands@), line@) is None,
        },
{
    if line.is_empty() || pos < line.len() {
        return None;
    }
    let n = commands.len();
    let mut i: usize = 0;
    assert(views(commands@).skip(0) =~= views(commands@));
    while i < n
        invariant
            n == commands@.len(),
            i <= n,
            hint_shown(line, pos),
            first_completion(views(commands@), line@) == first_completion(
                views(commands@).skip(i as int),
                line@,
            ),
        decreases n - i,
    {
        let ghost tail = views(commands@).skip(i as int);
        assert(tail[0] == commands@[i as int]@);
        assert(tail.drop_first() =~= views(commands@).skip(i + 1));
        let command = commands[i].as_str();
        if starts_with(command, line) {
            return Some(chars_from(command, line.unicode_len()));
        }
        i = i + 1;
    }
    assert(views(commands@).skip(n as int) =~= Seq::<Seq<char>>::empty());
    None
}

/// The escape sequence that starts bold green text.
pub open spec fn prompt_style() -> Seq<char> {
    "\x1b[1;32m"@
}

/// The escape sequence that starts dim text.
pub open spec fn hint_style() -> Seq<char> {
    "\x1b[2m"@
}

/// The escape sequence that ends styled text.
pub open spec fn style_end() -> Seq<char> {
    "\x1b[0m"@
}

/// The prompt as shown: in bold green for the default prompt; any other
/// prompt (`None`) is shown as it is.
pub fn highlight_prompt(prompt: &str, default: bool) -> (shown: Option<String>)
    ensures
        default ==> shown is Some && shown->0@ == prompt_style() + prompt@ + style_end(),
        !default ==> shown is None,
{
    if default {
        Some(concat3("\x1b[1;32m", prompt, "\x1b[0m"))
    } else {
        None
    }
}

/// The hint as shown: dimmed.
pub fn highlight_hint(hint: &str) -> (shown: String)
    ensures
        shown@ == hint_style() + hint@ + style_end(),
{
    concat3("\x1b[2m", hint, "\x1b[0m")
}

proof fn lemma_completions_concat(a: Seq<Seq<char>>, b: Seq<Seq<char>>, line: Seq<char>)
    ensures
        completions(a + b, line) == completions(a, line) + completions(b, line),
    decreases b.len(),
{
    if b.len() == 0 {
        assert(a + b =~= a);
        assert(completions(a, line) + completions(b, line) =~= completions(a, line));
    } else {
        assert((a + b).drop_last() =~= a + b.drop_last());
        assert((a + b).last() == b.last());
        lemma_completions_concat(a, b.drop_last(), line);
        let x = b.last();
        if line.is_prefix_of(x) {
            assert(completions(a, line) + completions(b, line) =~= (completions(a, line)
                + completions(b.drop_last(), line)).push(rest_after(x, line)));
        }
    }
}

/// The hint is the first completion: a hint is offered exactly when some
/// command begins with the line, and it is what `complete` lists first.
pub proof fn law_hint_is_first_completion(commands: Seq<Seq<char>>, line: Seq<char>)
    ensures
        first_completion(commands, line) == if completions(commands, line).len() > 0 {
            Some(completions(commands, line)[0])
        } else {
            None
        },
    decreases commands.len(),
{
    if commands.len() > 0 {
        let head = seq![commands[0]];
        let tail = commands.drop_first();
        assert(commands =~= head + tail);
        lemma_completions_concat(head, tail, line);
        assert(head.drop_last() =~= Seq::<Seq<char>>::empty());
        assert(head.last() == commands[0]);
        assert(completions(head.drop_last(), line) =~= Seq::<Seq<char>>::empty());
        law_hint_is_first_completion(tail, line);
        if line.is_prefix_of(commands[0]) {
            assert(completions(head, line) =~= seq![rest_after(commands[0], line)]);
            assert(completions(commands, line)[0] == rest_after(commands[0], line));
        } else {
            assert(completions(head, line) =~= Seq::<Seq<char>>::empty());
            assert(completions(commands, line) =~= completions(tail, line));
        }
    }
}

/// Completion gives back what remains of the commands: each completion, put
/// after the line, is one of the commands, and every command that begins with
/// the line has its remainder among the completions.
pub proof fn law_completion_restores_commands(commands: Seq<Seq<char>>, line: Seq<char>)
    ensures
        forall|c: Seq<char>| #[trigger] completions(commands, line).contains(c) ==> commands.contains(line + c),
        forall|cmd: Seq<char>|
            #[trigger] commands.contains(cmd) && line.is_prefix_of(cmd) ==> completions(
                commands,
                line,
            ).contains(rest_after(cmd, line)),
    decreases commands.len(),
{
    if commands.len() > 0 {
        let rest = commands.drop_last();
        let x = commands.last();
        law_completion_restores_commands(rest, line);
        assert forall|c: Seq<char>| #[trigger] completions(commands, line).contains(c) implies commands.contains(line + c) by {
            if completions(rest, line).contains(c) {
                let k = choose|k: int| 0 <= k < rest.len() && rest[k] == line + c;
                assert(commands[k] == line + c);
            } else {
                assert(line.is_prefix_of(x) && c == rest_after(x, line));
                assert(line + c =~= x);
                assert(commands[commands.len() - 1] == x);
            }
        }
        assert forall|cmd: Seq<char>|
            #[trigger] commands.contains(cmd) && line.is_prefix_of(cmd) implies completions(
                commands,
                line,
            ).contains(rest_after(cmd, line)) by {
            let k = choose|k: int| 0 <= k < commands.len() && commands[k] == cmd;
            if k < commands.len() - 1 {
                assert(rest[k] == cmd);
                assert(rest.contains(cmd));
                assert(completions(rest, line).contains(rest_after(cmd, line)));
                let m = choose|m: int| 0 <= m < completions(rest, line).len() && completions(rest, line)[m] == rest_after(cmd, line);
                assert(completions(commands, line)[m] == rest_after(cmd, line));
            } else {
                let all = completions(commands, line);
                assert(all[all.len() - 1] == rest_after(cmd, line));
            }
        }
    }
}

/// On an empty line every command is offered whole, in order, and no
/// command gives more than one completion.
pub proof fn law_empty_line_offers_every_command(commands: Seq<Seq<char>>, line: Seq<char>)
    ensures
        completions(commands, Seq::<char>::empty()) == commands,
        completions(commands, line).len() <= commands.len(),
    decreases commands.len(),
{
    if commands.len() > 0 {
        law_empty_line_offers_every_command(commands.drop_last(), line);
        let x = commands.last();
        assert(Seq::<char>::empty().is_prefix_of(x)) by {
            assert(x.subrange(0, 0) =~= Seq::<char>::empty());
        }
        assert(rest_after(x, Seq::<char>::empty()) =~= x);
        assert(commands.drop_last().push(x) =~= commands);
    }
}

/// A hint is withheld only for an empty line or while the cursor stands
/// inside the line: for every non-empty line with the cursor at or after its
/// end, the hint is given.
pub proof fn law_hint_shown_on_every_nonempty_line(line: &str, pos: usize)
    ensures
        hint_shown(line, pos) <==> (line@.len() > 0 && pos >= line.len()),
{
}

/// Whether `commands[k]` is the first command that begins with `line`.
pub open spec fn first_match_at(commands: Seq<Seq<char>>, line: Seq<char>, k: int) -> bool {
    &&& 0 <= k < commands.len()
    &&& line.is_prefix_of(commands[k])
    &&& forall|m: int| 0 <= m < k ==> !line.is_prefix_of(#[trigger] commands[m])
}

/// The first completion is what remains of the first command that begins
/// with the line, and there is none exactly when no command begins with it.
pub proof fn law_first_completion_is_first_match(commands: Seq<Seq<char>>, line: Seq<char>)
    ensures
        first_completion(commands, line) is None <==> forall|k: int|
            0 <= k < commands.len() ==> !line.is_prefix_of(#[trigger] commands[k]),
        first_completion(commands, line) is Some ==> exists|k: int|
            #[trigger] first_match_at(commands, line, k) && first_completion(commands, line)->0
                == commands[k].skip(line.len() as int),
    decreases commands.len(),
{
    if commands.len() > 0 {
        let tail = commands.drop_first();
        law_first_completion_is_first_match(tail, line);
        if line.is_prefix_of(commands[0]) {
            assert(first_match_at(commands, line, 0));
        } else {
            if first_completion(tail, line) is Some {
                let k = choose|k: int| #[trigger] first_match_at(tail, line, k)
                    && first_completion(tail, line)->0 == tail[k].skip(line.len() as int);
                assert forall|m: int| 0 <= m < k + 1 implies !line.is_prefix_of(#[trigger] commands[m]) by {
                    if m > 0 {
                        assert(commands[m] == tail[m - 1]);
                    }
                }
                assert(commands[k + 1] == tail[k]);
                assert(first_match_at(commands, line, k + 1));
            } else {
                assert forall|k: int| 0 <= k < commands.len() implies !line.is_prefix_of(#[trigger] commands[k]) by {
                    if k > 0 {
                        assert(commands[k] == tail[k - 1]);
                    }
                }
            }
        }
    }
}

} // verus!
