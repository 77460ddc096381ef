//! The parse itself: lines are fed one by one to an accumulator that holds
//! the message in progress, and finished messages are grouped by author.
use vstd::prelude::*;
use crate::line::{classify_line, kind_of, LineClass, LineKind};
use crate::text::{chars_of, string_of};

verus! {

/// One message of the chat.
pub struct ParsedMessage {
    pub author: String,
    pub content: String,
    /// Milliseconds since 1970-01-01 00:00 UTC.
    pub timestamp: i64,
}

/// One author and their messages, in the order they were completed.
pub struct ParsedParticipant {
    pub name: String,
    pub messages: Vec<ParsedMessage>,
}

/// The participants of a chat, in the order of their first message.
pub struct ParsedChat {
    pub participants: Vec<ParsedParticipant>,
}

pub struct MessageModel {
    pub author: Seq<char>,
    pub content: Seq<char>,
    pub timestamp: int,
}

pub struct ParticipantModel {
    pub name: Seq<char>,
    pub messages: Seq<MessageModel>,
}

impl View for ParsedMessage {
    type V = MessageModel;

    open spec fn view(&self) -> MessageModel {
        MessageModel { author: self.author@, content: self.content@, timestamp: self.timestamp as int }
    }
}

impl View for ParsedParticipant {
    type V = ParticipantModel;

    open spec fn view(&self) -> ParticipantModel {
        ParticipantModel { name: self.name@, messages: self.messages@.map_values(|m: ParsedMessage| m@) }
    }
}

impl View for ParsedChat {
    type V = Seq<ParticipantModel>;

    open spec fn view(&self) -> Seq<ParticipantModel> {
        self.participants@.map_values(|p: ParsedParticipant| p@)
    }
}

/// What the line splitter has seen of a text: the lines it has ended, and
/// the line in progress.
pub open spec fn split_state(s: Seq<char>) -> (Seq<Seq<char>>, Seq<char>)
    decreases s.len(),
{
    if s.len() == 0 {
        (seq![], seq![])
    } else {
        let (done, current) = split_state(s.drop_last());
        if s.last() == '\n' {
            (done.push(strip_cr(current)), seq![])
        } else {
            (done, current.push(s.last()))
        }
    }
}

/// A line ended by `\r\n` loses its `\r`.
pub open spec fn strip_cr(l: Seq<char>) -> Seq<char> {
    if l.len() > 0 && l.last() == '\r' {
        l.drop_last()
    } else {
        l
    }
}

/// The physical lines of `s`: each `\n` ends one, and what follows the last
/// `\n` is a line of its own unless it is empty.
pub open spec fn lines_of(s: Seq<char>) -> Seq<Seq<char>> {
    let (done, current) = split_state(s);
    if current.len() > 0 {
        done.push(current)
    } else {
        done
    }
}

/// The state of the message accumulator: the messages it has completed, in
/// order, and the message in progress.
pub struct Accumulated {
    pub flushed: Seq<MessageModel>,
    pub pending: Option<MessageModel>,
}

/// The completed messages, with the one in progress closed at the end.
pub open spec fn finished(a: Accumulated) -> Seq<MessageModel> {
    match a.pending {
        Some(m) => a.flushed.push(m),
        None => a.flushed,
    }
}

/// One line fed to the accumulator: a message start closes the message in
/// progress and opens a new one; a notice changes nothing; a continuation
/// is added to the message in progress after a newline, or dropped where
/// there is none.
pub open spec fn step(a: Accumulated, line: Seq<char>) -> Accumulated {
    match kind_of(line) {
        LineKind::Start { author, text, timestamp } => Accumulated {
            flushed: finished(a),
            pending: Some(MessageModel { author, content: text, timestamp }),
        },
        LineKind::Notice => a,
        LineKind::Continuation => match a.pending {
            Some(m) => Accumulated {
                flushed: a.flushed,
                pending: Some(MessageModel { content: m.content + seq!['\n'] + line, ..m }),
            },
            None => a,
        },
    }
}

/// The accumulator after the given lines, fed in order.
pub open spec fn run(lines: Seq<Seq<char>>) -> Accumulated
    decreases lines.len(),
{
    if lines.len() == 0 {
        Accumulated { flushed: seq![], pending: None }
    } else {
        step(run(lines.drop_last()), lines.last())
    }
}

/// The messages of the given lines, in the order they were completed.
pub open spec fn messages_of(lines: Seq<Seq<char>>) -> Seq<MessageModel> {
    finished(run(lines))
}

/// The index of the participant called `name`, or -1.
pub open spec fn name_index(ps: Seq<ParticipantModel>, name: Seq<char>) -> int
    decreases ps.len(),
{
    if ps.len() == 0 {
        -1
    } else if ps.last().name == name {
        ps.len() - 1
    } else {
        name_index(ps.drop_last(), name)
    }
}

/// `m` added to its author's messages; an author not seen yet becomes a new
/// participant at the end.
pub open spec fn add_message(ps: Seq<ParticipantModel>, m: MessageModel) -> Seq<ParticipantModel> {
    let k = name_index(ps, m.author);
    if k >= 0 {
        ps.update(k, ParticipantModel { name: ps[k].name, messages: ps[k].messages.push(m) })
    } else {
        ps.push(ParticipantModel { name: m.author, messages: seq![m] })
    }
}

/// The messages grouped by author, authors in the order of first appearance.
pub open spec fn group(msgs: Seq<MessageModel>) -> Seq<ParticipantModel>
    decreases msgs.len(),
{
    if msgs.len() == 0 {
        seq![]
    } else {
        add_message(group(msgs.drop_last()), msgs.last())
    }
}

/// The chat that a transcript holds.
pub open spec fn chat_model(s: Seq<char>) -> Seq<ParticipantModel> {
    group(messages_of(lines_of(s)))
}

pub proof fn lemma_name_index(ps: Seq<ParticipantModel>, name: Seq<char>)
    ensures
        -1 <= name_index(ps, name) < ps.len(),
        name_index(ps, name) >= 0 ==> ps[name_index(ps, name)].name == name,
        name_index(ps, name) < 0 ==> forall|i: int| 0 <= i < ps.len() ==> ps[i].name != name,
    decreases ps.len(),
{
    if ps.len() > 0 {
        lemma_name_index(ps.drop_last(), name);
        if ps.last().name != name {
            let k = name_index(ps.drop_last(), name);
            if k >= 0 {
                assert(ps[k] == ps.drop_last()[k]);
            } else {
                assert forall|i: int| 0 <= i < ps.len() implies ps[i].name != name by {
                    if i < ps.len() - 1 {
                        assert(ps[i] == ps.drop_last()[i]);
                    }
                }
            }
        }
    }
}

pub open spec fn participants_view(ps: Seq<ParsedParticipant>) -> Seq<ParticipantModel> {
    ps.map_values(|p: ParsedParticipant| p@)
}

/// The index of the participant called `name`, searched from the end.
fn find_participant(ps: &Vec<ParsedParticipant>, name: &String) -> (r: Option<usize>)
    ensures
        r matches Some(k) ==> k == name_index(participants_view(ps@), name@),
        r is None ==> name_index(participants_view(ps@), name@) == -1,
{
    let ghost all = participants_view(ps@);
    let mut i: usize = ps.len();
    proof {
        assert(all.take(i as int) =~= all);
    }
    while i > 0
        invariant
            i <= ps.len(),
            all == participants_view(ps@),
            name_index(all, name@) == name_index(all.take(i as int), name@),
        decreases i,
    {
        let ghost part = all.take(i as int);
        if ps[i - 1].name == *name {
            proof {
                assert(part.last() == ps@[i - 1]@);
            }
            return Some(i - 1);
        }
        proof {
            assert(part.last() == ps@[i - 1]@);
            assert(part.drop_last() =~= all.take(i - 1));
        }
        i = i - 1;
    }
    None
}

/// Adds `msg` to its author's messages, or a new participant at the end.
fn add_to_participants(ps: &mut Vec<ParsedParticipant>, msg: ParsedMessage)
    ensures
        participants_view(final(ps)@) == add_message(participants_view(old(ps)@), msg@),
{
    let ghost before = participants_view(ps@);
    proof {
        lemma_name_index(before, msg.author@);
    }
    match find_participant(ps, &msg.author) {
        Some(k) => {
            let mut p = ps.remove(k);
            let ghost old_p = p;
            p.messages.push(msg);
            proof {
                assert(p@.messages =~= old_p@.messages.push(msg@));
            }
            ps.insert(k, p);
            proof {
                assert(participants_view(ps@) =~= add_message(before, msg@));
            }
        },
        None => {
            let name = msg.author.clone();
            let mut messages: Vec<ParsedMessage> = Vec::new();
            messages.push(msg);
            let p = ParsedParticipant { name, messages };
            proof {
                assert(p@.messages =~= seq![msg@]);
            }
            ps.push(p);
            proof {
                assert(participants_view(ps@) =~= add_message(before, msg@));
            }
        },
    }
}

fn copy_chars(v: &Vec<char>, from: usize, to: usize) -> (r: Vec<char>)
    requires
        from <= to <= v.len(),
    ensures
        r@ == v@.subrange(from as int, to as int),
{
    let mut r: Vec<char> = Vec::new();
    let mut i: usize = from;
    while i < to
        invariant
            from <= i <= to <= v.len(),
            r@ == v@.subrange(from as int, i as int),
        decreases to - i,
    {
        r.push(v[i]);
        i = i + 1;
        proof {
            assert(r@ =~= v@.subrange(from as int, i as int));
        }
    }
    r
}

/// Appends a line break and then `line` to `body`.
fn append_line(body: &mut Vec<char>, line: &Vec<char>)
    ensures
        final(body)@ == old(body)@ + seq!['\n'] + line@,
{
    body.push('\n');
    let ghost base = body@;
    let mut i: usize = 0;
    while i < line.len()
        invariant
            i <= line.len(),
            body@ == base + line@.take(i as int),
        decreases line.len() - i,
    {
        body.push(line[i]);
        i = i + 1;
        proof {
            assert(body@ =~= base + line@.take(i as int));
        }
    }
    proof {
        assert(line@.take(i as int) =~= line@);
    }
}

/// The message accumulator and the grouping of completed messages by author.
pub struct ChatBuilder {
    participants: Vec<ParsedParticipant>,
    has_pending: bool,
    pending_author: Vec<char>,
    pending_timestamp: i64,
    pending_content: Vec<char>,
    flushed: Ghost<Seq<MessageModel>>,
}

impl View for ChatBuilder {
    type V = Accumulated;

    closed spec fn view(&self) -> Accumulated {
        Accumulated {
            flushed: self.flushed@,
            pending: if self.has_pending {
                Some(
                    MessageModel {
                        author: self.pending_author@,
                        content: self.pending_content@,
                        timestamp: self.pending_timestamp as int,
                    },
                )
            } else {
                None
            },
        }
    }
}

impl ChatBuilder {
    /// The participants hold exactly the completed messages, grouped.
    pub closed spec fn wf(&self) -> bool {
        participants_view(self.participants@) == group(self.flushed@)
    }

    pub fn new() -> (r: ChatBuilder)
        ensures
            r.wf(),
            r@ == (Accumulated { flushed: seq![], pending: None }),
    {
        let r = ChatBuilder {
            participants: Vec::new(),
            has_pending: false,
            pending_author: Vec::new(),
            pending_timestamp: 0,
            pending_content: Vec::new(),
            flushed: Ghost(Seq::empty()),
        };
        proof {
            assert(participants_view(r.participants@) =~= seq![]);
        }
        r
    }

    /// Completes the message in progress, if there is one.
    fn flush(&mut self)
        requires
            old(self).wf(),
        ensures
            final(self).wf(),
            final(self)@ == (Accumulated { flushed: finished(old(self)@), pending: None }),
    {
        if self.has_pending {
            let n = self.pending_author.len();
            let c = self.pending_content.len();
            let msg = ParsedMessage {
                author: string_of(&self.pending_author, 0, n),
                content: string_of(&self.pending_content, 0, c),
                timestamp: self.pending_timestamp,
            };
            proof {
                assert(self.pending_author@.subrange(0, n as int) =~= self.pending_author@);
                assert(self.pending_content@.subrange(0, c as int) =~= self.pending_content@);
                assert(self.flushed@.push(msg@).drop_last() =~= self.flushed@);
            }
            add_to_participants(&mut self.participants, msg);
            self.flushed = Ghost(self.flushed@.push(msg@));
            self.has_pending = false;
            self.pending_author = Vec::new();
            self.pending_content = Vec::new();
        }
    }

    /// Feeds one line (without its line break) to the accumulator.
    pub fn feed_line(&mut self, line: &Vec<char>)
        requires
            old(self).wf(),
        ensures
            final(self).wf(),
            final(self)@ == step(old(self)@, line@),
    {
        match classify_line(line) {
            LineClass::Start { marks, timestamp } => {
                self.flush();
                self.pending_author = copy_chars(line, marks.minute_end + 3, marks.colon);
                self.pending_content = copy_chars(line, marks.colon + 2, line.len());
                self.pending_timestamp = timestamp;
                self.has_pending = true;
            },
            LineClass::Notice => {},
            LineClass::Continuation => {
                if self.has_pending {
                    append_line(&mut self.pending_content, line);
                }
            },
        }
    }

    /// Completes the message in progress and hands out the chat.
    pub fn finish(self) -> (r: ParsedChat)
        requires
            self.wf(),
        ensures
            r@ == group(finished(self@)),
    {
        let mut b = self;
        b.flush();
        ParsedChat { participants: b.participants }
    }
}

/// Parses an exported chat transcript into its participants and messages.
pub fn parse_whatsapp_chat(content: &str) -> (r: ParsedChat)
    ensures
        r@ == chat_model(content@),
{
    let s = chars_of(content);
    let mut b = ChatBuilder::new();
    let mut current: Vec<char> = Vec::new();
    let ghost mut done: Seq<Seq<char>> = seq![];
    let mut i: usize = 0;
    while i < s.len()
        invariant
            i <= s.len(),
            b.wf(),
            split_state(s@.take(i as int)) == (done, current@),
            b@ == run(done),
        decreases s.len() - i,
    {
        let c = s[i];
        proof {
            assert(s@.take(i + 1).drop_last() =~= s@.take(i as int));
        }
        if c == '\n' {
            if current.len() > 0 && current[current.len() - 1] == '\r' {
                current.pop();
            }
            b.feed_line(&current);
            proof {
                assert(done.push(current@).drop_last() =~= done);
                done = done.push(current@);
            }
            current = Vec::new();
        } else {
            current.push(c);
        }
        i = i + 1;
    }
    proof {
        assert(s@.take(i as int) =~= s@);
    }
    if current.len() > 0 {
        b.feed_line(&current);
        proof {
            assert(done.push(current@).drop_last() =~= done);
            done = done.push(current@);
        }
    }
    b.finish()
}

} // verus!
