//! What holds of every parse, proved over the models of `chat` and `line`.
use vstd::prelude::*;
use crate::chat::{
    add_message, chat_model, finished, group, lemma_name_index, lines_of, name_index, messages_of, run, step, Accumulated, MessageModel,
    ParsedChat,
};
use crate::datetime::{all_digits, timestamp_of};
use crate::line::{contains, kind_of, lemma_well_formed_line_starts, message_line, LineKind};

verus! {

/// The accumulator after `lines`, fed in order from the state `a`.
pub open spec fn run_from(a: Accumulated, lines: Seq<Seq<char>>) -> Accumulated
    decreases lines.len(),
{
    if lines.len() == 0 {
        a
    } else {
        step(run_from(a, lines.drop_last()), lines.last())
    }
}

/// The lines joined into one body, each after a line break; notice lines
/// are left out.
pub open spec fn joined(lines: Seq<Seq<char>>) -> Seq<char>
    decreases lines.len(),
{
    if lines.len() == 0 {
        seq![]
    } else if kind_of(lines.last()) is Notice {
        joined(lines.drop_last())
    } else {
        joined(lines.drop_last()) + seq!['\n'] + lines.last()
    }
}

/// Some message of `msgs` is by `author`, carries `timestamp`, and its
/// content begins with `text`.
pub open spec fn carries(msgs: Seq<MessageModel>, author: Seq<char>, text: Seq<char>, timestamp: int) -> bool {
    exists|i: int|
        0 <= i < msgs.len() && (#[trigger] msgs[i]).author == author && msgs[i].timestamp == timestamp
            && text.is_prefix_of(msgs[i].content)
}

/// Feeding `a + b` is feeding `b` after `a`.
pub proof fn lemma_run_concat(a: Seq<Seq<char>>, b: Seq<Seq<char>>)
    ensures
        run(a + b) == run_from(run(a), b),
    decreases b.len(),
{
    if b.len() == 0 {
        assert(a + b =~= a);
    } else {
        lemma_run_concat(a, b.drop_last());
        assert((a + b).drop_last() =~= a + b.drop_last());
        assert((a + b).last() == b.last());
    }
}

/// Lines none of which starts a message leave the accumulator as it was,
/// where no message is in progress.
pub proof fn lemma_no_start_keeps_empty(a: Accumulated, lines: Seq<Seq<char>>)
    requires
        a.pending is None,
        forall|i: int| 0 <= i < lines.len() ==> !(kind_of(#[trigger] lines[i]) is Start),
    ensures
        run_from(a, lines) == a,
    decreases lines.len(),
{
    if lines.len() > 0 {
        lemma_no_start_keeps_empty(a, lines.drop_last());
        assert(!(kind_of(lines[lines.len() - 1]) is Start));
    }
}

/// A transcript none of whose lines starts a message has no participants.
pub proof fn lemma_no_start_no_participants(s: Seq<char>)
    requires
        forall|i: int| 0 <= i < lines_of(s).len() ==> !(kind_of(#[trigger] lines_of(s)[i]) is Start),
    ensures
        chat_model(s).len() == 0,
{
    let lines = lines_of(s);
    let empty = Accumulated { flushed: seq![], pending: None };
    lemma_run_concat(seq![], lines);
    assert(Seq::<Seq<char>>::empty() + lines =~= lines);
    lemma_no_start_keeps_empty(empty, lines);
    assert(messages_of(lines) =~= seq![]);
}

/// Lines that continue a message in progress are added to its body, each
/// after a line break and in their order; notice lines among them are
/// skipped and do not end the body; no message is completed meanwhile.
pub proof fn lemma_continuations_join(a: Accumulated, lines: Seq<Seq<char>>)
    requires
        a.pending is Some,
        forall|i: int|
            0 <= i < lines.len() ==> kind_of(#[trigger] lines[i]) is Continuation || kind_of(
                lines[i],
            ) is Notice,
    ensures
        run_from(a, lines).flushed == a.flushed,
        run_from(a, lines).pending == Some(
            MessageModel { content: a.pending->0.content + joined(lines), ..a.pending->0 },
        ),
    decreases lines.len(),
{
    if lines.len() == 0 {
        assert(a.pending->0.content + joined(lines) =~= a.pending->0.content);
    } else {
        lemma_continuations_join(a, lines.drop_last());
        assert(lines.last() == lines[lines.len() - 1]);
        if kind_of(lines.last()) is Continuation {
            let c = a.pending->0.content;
            assert(c + joined(lines.drop_last()) + seq!['\n'] + lines.last() =~= c + joined(lines));
        }
    }
}

/// A notice line changes nothing: wherever it stands, the messages are
/// those of the transcript without it.
pub proof fn lemma_notice_ignored(before: Seq<Seq<char>>, notice: Seq<char>, after: Seq<Seq<char>>)
    requires
        kind_of(notice) is Notice,
    ensures
        messages_of(before + seq![notice] + after) == messages_of(before + after),
{
    let with = before + seq![notice];
    lemma_run_concat(with, after);
    lemma_run_concat(before, after);
    assert(with.drop_last() =~= before);
    assert(run(with) == run(before));
}

/// One step keeps a message that begins with `text` among the messages.
proof fn lemma_step_carries(a: Accumulated, line: Seq<char>, author: Seq<char>, text: Seq<char>, t: int)
    requires
        carries(finished(a), author, text, t),
    ensures
        carries(finished(step(a, line)), author, text, t),
{
    let i = choose|i: int|
        0 <= i < finished(a).len() && (#[trigger] finished(a)[i]).author == author
            && finished(a)[i].timestamp == t && text.is_prefix_of(finished(a)[i].content);
    let b = step(a, line);
    match kind_of(line) {
        LineKind::Start { .. } => {
            assert(finished(b)[i] == finished(a)[i]);
        },
        LineKind::Notice => {},
        LineKind::Continuation => {
            if a.pending is Some {
                if i < a.flushed.len() {
                    assert(finished(b)[i] == finished(a)[i]);
                } else {
                    let m = a.pending->0;
                    assert(finished(b)[i].content == m.content + seq!['\n'] + line);
                    assert(text.is_prefix_of(finished(b)[i].content)) by {
                        assert forall|k: int| 0 <= k < text.len() implies text[k] == finished(
                            b,
                        )[i].content[k] by {
                            assert(text[k] == m.content[k]);
                        }
                    }
                }
            }
        },
    }
}

proof fn lemma_run_carries(a: Accumulated, lines: Seq<Seq<char>>, author: Seq<char>, text: Seq<char>, t: int)
    requires
        carries(finished(a), author, text, t),
    ensures
        carries(finished(run_from(a, lines)), author, text, t),
    decreases lines.len(),
{
    if lines.len() > 0 {
        lemma_run_carries(a, lines.drop_last(), author, text, t);
        lemma_step_carries(run_from(a, lines.drop_last()), lines.last(), author, text, t);
    }
}

/// Every line that starts a message gives a message by its author, with its
/// timestamp, whose content begins with the line's text.
pub proof fn lemma_start_emitted(lines: Seq<Seq<char>>, k: int)
    requires
        0 <= k < lines.len(),
        kind_of(lines[k]) is Start,
    ensures
        carries(
            messages_of(lines),
            kind_of(lines[k])->author,
            kind_of(lines[k])->text,
            kind_of(lines[k])->timestamp,
        ),
{
    let (author, text, t) = (kind_of(lines[k])->author, kind_of(lines[k])->text, kind_of(lines[k])->timestamp);
    let head = lines.take(k + 1);
    let tail = lines.skip(k + 1);
    assert(head.drop_last() =~= lines.take(k));
    assert(head.last() == lines[k]);
    let a = run(head);
    let last = finished(a).len() - 1;
    assert(finished(a)[last].content == text);
    assert(text.is_prefix_of(finished(a)[last].content));
    assert(carries(finished(a), author, text, t));
    lemma_run_carries(a, tail, author, text, t);
    lemma_run_concat(head, tail);
    assert(head + tail =~= lines);
}

/// A well-formed line `day/month/year, hour:minute - author: text`, naming a
/// real date and time, gives a message by
/// `author` whose content begins with `text`, wherever it stands.
pub proof fn lemma_well_formed_line_emitted(
    lines: Seq<Seq<char>>,
    k: int,
    day: Seq<char>,
    month: Seq<char>,
    year: Seq<char>,
    hour: Seq<char>,
    minute: Seq<char>,
    author: Seq<char>,
    text: Seq<char>,
)
    requires
        0 <= k < lines.len(),
        lines[k] == message_line(day, month, year, hour, minute, author, text),
        all_digits(day) && 1 <= day.len() <= 2,
        all_digits(month) && 1 <= month.len() <= 2,
        all_digits(year) && 2 <= year.len() <= 4,
        all_digits(hour) && 1 <= hour.len() <= 2,
        all_digits(minute) && minute.len() == 2,
        author.len() > 0,
        !contains(author, seq![':', ' ']),
        text.len() > 0,
        timestamp_of(day, month, year, hour, minute) is Some,
    ensures
        carries(messages_of(lines), author, text, timestamp_of(day, month, year, hour, minute)->0),
{
    lemma_well_formed_line_starts(day, month, year, hour, minute, author, text);
    lemma_start_emitted(lines, k);
}

/// The messages of `msgs` by `name`, in their order.
pub open spec fn by_author(msgs: Seq<MessageModel>, name: Seq<char>) -> Seq<MessageModel>
    decreases msgs.len(),
{
    if msgs.len() == 0 {
        seq![]
    } else if msgs.last().author == name {
        by_author(msgs.drop_last(), name).push(msgs.last())
    } else {
        by_author(msgs.drop_last(), name)
    }
}

/// Grouping keeps every message with its author: each participant holds
/// exactly the messages by its name, in their order; no two participants
/// share a name; and an author with messages has a participant.
pub proof fn lemma_group_by_author(msgs: Seq<MessageModel>)
    ensures
        forall|j: int|
            0 <= j < group(msgs).len() ==> (#[trigger] group(msgs)[j]).messages == by_author(
                msgs,
                group(msgs)[j].name,
            ),
        forall|j1: int, j2: int|
            0 <= j1 < j2 < group(msgs).len() ==> (#[trigger] group(msgs)[j1]).name != (
            #[trigger] group(msgs)[j2]).name,
        forall|name: Seq<char>|
            name_index(group(msgs), name) < 0 ==> #[trigger] by_author(msgs, name) == Seq::<
                MessageModel,
            >::empty(),
    decreases msgs.len(),
{
    if msgs.len() > 0 {
        let prev = msgs.drop_last();
        let m = msgs.last();
        lemma_group_by_author(prev);
        let g = group(prev);
        let g2 = group(msgs);
        assert(g2 == add_message(g, m));
        lemma_name_index(g, m.author);
        let k = name_index(g, m.author);
        assert(by_author(msgs, m.author) == by_author(prev, m.author).push(m));
        assert forall|j: int| 0 <= j < g2.len() implies (#[trigger] g2[j]).messages == by_author(
            msgs,
            g2[j].name,
        ) by {
            if j < g.len() && j != k {
                assert(g2[j] == g[j]);
                if k >= 0 {
                    assert(g[k].name == m.author);
                }
                assert(g[j].name != m.author);
                assert(by_author(msgs, g[j].name) == by_author(prev, g[j].name));
            } else if j == k {
                assert(g[k].name == m.author);
                assert(g[k].messages == by_author(prev, g[k].name));
            } else {
                assert(j == g.len());
                assert(by_author(prev, m.author) == Seq::<MessageModel>::empty());
                assert(by_author(prev, m.author).push(m) =~= seq![m]);
            }
        }
        assert forall|j1: int, j2: int| 0 <= j1 < j2 < g2.len() implies (#[trigger] g2[j1]).name != (
        #[trigger] g2[j2]).name by {
            if j2 < g.len() {
                assert(g2[j1].name == g[j1].name && g2[j2].name == g[j2].name);
            }
        }
        assert forall|name: Seq<char>| name_index(g2, name) < 0 implies #[trigger] by_author(
            msgs,
            name,
        ) == Seq::<MessageModel>::empty() by {
            lemma_name_index(g2, name);
            lemma_name_index(g, name);
            if k >= 0 {
                assert(g2[k].name == m.author);
            } else {
                assert(g2[g.len() as int].name == m.author);
            }
            assert(m.author != name);
            if name_index(g, name) >= 0 {
                let i = name_index(g, name);
                assert(g2[i].name == g[i].name);
            }
            assert(by_author(prev, name) == Seq::<MessageModel>::empty());
            assert(by_author(msgs, name) == by_author(prev, name));
        }
    }
}

proof fn lemma_by_author_has(msgs: Seq<MessageModel>, i: int)
    requires
        0 <= i < msgs.len(),
    ensures
        exists|l: int|
            0 <= l < by_author(msgs, msgs[i].author).len() && #[trigger] by_author(
                msgs,
                msgs[i].author,
            )[l] == msgs[i],
    decreases msgs.len(),
{
    let prev = msgs.drop_last();
    let name = msgs[i].author;
    if i == msgs.len() - 1 {
        let l = by_author(prev, name).len() as int;
        assert(by_author(msgs, name)[l] == msgs[i]);
    } else {
        lemma_by_author_has(prev, i);
        assert(prev[i] == msgs[i]);
        let l = choose|l: int|
            0 <= l < by_author(prev, name).len() && #[trigger] by_author(prev, name)[l] == prev[i];
        assert(by_author(msgs, name)[l] == msgs[i]);
    }
}

/// The participant called `author` in the chat of `s` holds a message whose
/// content begins with `text`, where a line of `s` is the well-formed message
/// line `day/month/year, hour:minute - author: text` naming a real date and
/// time.
pub proof fn lemma_well_formed_line_in_chat(
    s: Seq<char>,
    k: int,
    day: Seq<char>,
    month: Seq<char>,
    year: Seq<char>,
    hour: Seq<char>,
    minute: Seq<char>,
    author: Seq<char>,
    text: Seq<char>,
)
    requires
        0 <= k < lines_of(s).len(),
        lines_of(s)[k] == message_line(day, month, year, hour, minute, author, text),
        all_digits(day) && 1 <= day.len() <= 2,
        all_digits(month) && 1 <= month.len() <= 2,
        all_digits(year) && 2 <= year.len() <= 4,
        all_digits(hour) && 1 <= hour.len() <= 2,
        all_digits(minute) && minute.len() == 2,
        author.len() > 0,
        !contains(author, seq![':', ' ']),
        text.len() > 0,
        timestamp_of(day, month, year, hour, minute) is Some,
    ensures
        name_index(chat_model(s), author) >= 0,
        chat_model(s)[name_index(chat_model(s), author)].name == author,
        carries(
            chat_model(s)[name_index(chat_model(s), author)].messages,
            author,
            text,
            timestamp_of(day, month, year, hour, minute)->0,
        ),
{
    let msgs = messages_of(lines_of(s));
    let t = timestamp_of(day, month, year, hour, minute)->0;
    lemma_well_formed_line_emitted(lines_of(s), k, day, month, year, hour, minute, author, text);
    let i = choose|i: int|
        0 <= i < msgs.len() && (#[trigger] msgs[i]).author == author && msgs[i].timestamp == t
            && text.is_prefix_of(msgs[i].content);
    lemma_by_author_has(msgs, i);
    lemma_group_by_author(msgs);
    let g = group(msgs);
    lemma_name_index(g, author);
    let l = choose|l: int|
        0 <= l < by_author(msgs, author).len() && #[trigger] by_author(msgs, author)[l] == msgs[i];
    let j = name_index(g, author);
    assert(j >= 0);
    assert(g[j].messages == by_author(msgs, author));
    assert(g[j].messages[l] == msgs[i]);
}

/// `content` is `first` followed by `parts`, each after a line break, and
/// every one of `parts` is a continuation line.
pub open spec fn made_of(content: Seq<char>, first: Seq<char>, parts: Seq<Seq<char>>) -> bool {
    &&& forall|i: int| 0 <= i < parts.len() ==> kind_of(#[trigger] parts[i]) is Continuation
    &&& content == first + joined(parts)
}

/// `m` is the text of a message-start line of `lines` followed by
/// continuation lines only.
pub open spec fn from_start_and_continuations(m: MessageModel, lines: Seq<Seq<char>>) -> bool {
    exists|k: int, parts: Seq<Seq<char>>|
        0 <= k < lines.len() && kind_of(lines[k]) is Start && #[trigger] made_of(
            m.content,
            kind_of(lines[k])->text,
            parts,
        )
}

proof fn lemma_from_start_extends(m: MessageModel, lines: Seq<Seq<char>>, line: Seq<char>)
    requires
        from_start_and_continuations(m, lines),
    ensures
        from_start_and_continuations(m, lines.push(line)),
{
    let (k, parts) = choose|k: int, parts: Seq<Seq<char>>|
        0 <= k < lines.len() && kind_of(lines[k]) is Start && #[trigger] made_of(
            m.content,
            kind_of(lines[k])->text,
            parts,
        );
    assert(lines.push(line)[k] == lines[k]);
    assert(made_of(m.content, kind_of(lines.push(line)[k])->text, parts));
}

proof fn lemma_continue_body(m: MessageModel, lines: Seq<Seq<char>>, l: Seq<char>)
    requires
        from_start_and_continuations(m, lines),
        kind_of(l) is Continuation,
    ensures
        from_start_and_continuations(
            MessageModel { content: m.content + seq!['\n'] + l, ..m },
            lines,
        ),
{
    let (k, parts) = choose|k: int, parts: Seq<Seq<char>>|
        0 <= k < lines.len() && kind_of(lines[k]) is Start && #[trigger] made_of(
            m.content,
            kind_of(lines[k])->text,
            parts,
        );
    let first = kind_of(lines[k])->text;
    let more = parts.push(l);
    assert(more.drop_last() =~= parts);
    assert(joined(more) == joined(parts) + seq!['\n'] + l);
    assert(first + joined(parts) + seq!['\n'] + l =~= first + joined(more));
    assert forall|j: int| 0 <= j < more.len() implies kind_of(#[trigger] more[j]) is Continuation by {
        if j < parts.len() {
            assert(more[j] == parts[j]);
        }
    }
    let m2 = MessageModel { content: m.content + seq!['\n'] + l, ..m };
    assert(made_of(m2.content, kind_of(lines[k])->text, more));
    assert(0 <= k < lines.len() && kind_of(lines[k]) is Start);
    assert(from_start_and_continuations(m2, lines));
}

proof fn lemma_start_body(lines: Seq<Seq<char>>)
    requires
        lines.len() > 0,
        kind_of(lines.last()) is Start,
    ensures
        from_start_and_continuations(
            MessageModel {
                author: kind_of(lines.last())->author,
                content: kind_of(lines.last())->text,
                timestamp: kind_of(lines.last())->timestamp,
            },
            lines,
        ),
{
    let k = lines.len() - 1;
    let text = kind_of(lines.last())->text;
    let parts = Seq::<Seq<char>>::empty();
    assert(lines[k] == lines.last());
    assert(text + joined(parts) =~= text);
    let m = MessageModel {
        author: kind_of(lines.last())->author,
        content: kind_of(lines.last())->text,
        timestamp: kind_of(lines.last())->timestamp,
    };
    assert(made_of(m.content, kind_of(lines[k])->text, parts));
    assert(0 <= k < lines.len() && kind_of(lines[k]) is Start);
    assert(from_start_and_continuations(m, lines));
}

proof fn lemma_step_bodies(a: Accumulated, lines: Seq<Seq<char>>)
    requires
        lines.len() > 0,
        forall|i: int|
            0 <= i < finished(a).len() ==> from_start_and_continuations(#[trigger] finished(a)[i], lines),
    ensures
        forall|i: int|
            0 <= i < finished(step(a, lines.last())).len() ==> from_start_and_continuations(
                #[trigger] finished(step(a, lines.last()))[i],
                lines,
            ),
{
    let l = lines.last();
    let b = step(a, l);
    if kind_of(l) is Start {
        lemma_start_body(lines);
    } else if kind_of(l) is Continuation && a.pending is Some {
        assert(finished(a)[a.flushed.len() as int] == a.pending->0);
        lemma_continue_body(a.pending->0, lines, l);
    }
    assert forall|i: int| 0 <= i < finished(b).len() implies from_start_and_continuations(
        #[trigger] finished(b)[i],
        lines,
    ) by {
        if i < a.flushed.len() {
            assert(finished(b)[i] == finished(a)[i]);
        } else if !(kind_of(l) is Start) && !(kind_of(l) is Continuation && a.pending is Some) {
            assert(finished(b)[i] == finished(a)[i]);
        }
    }
}

/// The body of every message is the text of a message-start line followed
/// by continuation lines only: no notice line ever becomes part of a body.
pub proof fn lemma_bodies_hold_no_notice(lines: Seq<Seq<char>>)
    ensures
        forall|i: int|
            0 <= i < messages_of(lines).len() ==> from_start_and_continuations(
                #[trigger] messages_of(lines)[i],
                lines,
            ),
    decreases lines.len(),
{
    if lines.len() > 0 {
        let prev = lines.drop_last();
        lemma_bodies_hold_no_notice(prev);
        assert(prev.push(lines.last()) =~= lines);
        let a = run(prev);
        assert forall|i: int| 0 <= i < finished(a).len() implies from_start_and_continuations(
            #[trigger] finished(a)[i],
            lines,
        ) by {
            assert(messages_of(prev)[i] == finished(a)[i]);
            lemma_from_start_extends(finished(a)[i], prev, lines.last());
        }
        lemma_step_bodies(a, lines);
    }
}

/// Parsing is a function of the transcript: two parses of one text give the
/// same participants, with the same messages in the same order.
pub proof fn lemma_parse_deterministic(s: Seq<char>, first: ParsedChat, second: ParsedChat)
    requires
        first@ == chat_model(s),
        second@ == chat_model(s),
    ensures
        first@ == second@,
{
}

} // verus!
