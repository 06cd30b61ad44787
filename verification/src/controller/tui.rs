//! The screen of the server: its log, and the commands that are typed at it.
use vstd::prelude::*;
use crate::controller::srv::{EventRecord, ServerEvent};
use crate::frame::{joined, lemma_joined_push};
use crate::text::{dec, push_dec, texts};
use crate::utf8::{chars_of, is_white_space, str_eq};

verus! {

/// A command to the server.
#[derive(Debug, Clone)]
pub enum Command {
    ListClients,
    SendBroadcast(String),
    SendToClient(String, String),
    Shutdown,
}

/// A `Command` with its texts as character sequences.
pub enum CommandRecord {
    ListClients,
    SendBroadcast(Seq<char>),
    SendToClient(Seq<char>, Seq<char>),
    Shutdown,
}

impl View for Command {
    type V = CommandRecord;

    open spec fn view(&self) -> CommandRecord {
        match self {
            Command::ListClients => CommandRecord::ListClients,
            Command::SendBroadcast(m) => CommandRecord::SendBroadcast(m@),
            Command::SendToClient(n, m) => CommandRecord::SendToClient(n@, m@),
            Command::Shutdown => CommandRecord::Shutdown,
        }
    }
}

/// How many lines of the log are kept.
pub const MAX_LOGS: usize = 100;

/// What is on the screen.
pub struct App {
    pub logs: Vec<String>,
    pub input: String,
    pub clients: Vec<String>,
    pub log_scroll: usize,
}

/// The log after one more line: the oldest goes where there are too many.
pub open spec fn logs_after(logs: Seq<Seq<char>>, log: Seq<char>) -> Seq<Seq<char>> {
    if logs.len() >= 100 {
        logs.push(log).skip(1)
    } else {
        logs.push(log)
    }
}

/// Texts with a separator between each two.
pub open spec fn listed(parts: Seq<Seq<char>>, sep: Seq<char>) -> Seq<char>
    decreases parts.len(),
{
    if parts.len() == 0 {
        Seq::empty()
    } else if parts.len() == 1 {
        parts[0]
    } else {
        listed(parts.drop_last(), sep) + sep + parts.last()
    }
}

/// The line of the log on what the server has to say.
pub open spec fn event_line(e: EventRecord) -> Seq<char> {
    match e {
        EventRecord::ClientConnected(name) => "✓ Client connected: "@ + name,
        EventRecord::ClientMessage(name, msg) => seq!['['] + name + "] "@ + msg,
        EventRecord::ClientList(clients) => "Clients ("@ + dec(clients.len()) + "): "@ + listed(
            clients,
            ", "@,
        ),
        EventRecord::Log(log) => log,
    }
}

/// The line on an event tells all of it: the name of a client that came, the name and the
/// text of one that sent something, or how many clients there are and all their names.
pub proof fn lemma_event_line(name: Seq<char>, text: Seq<char>, clients: Seq<Seq<char>>)
    ensures
        event_line(EventRecord::Log(text)) == text,
        event_line(EventRecord::ClientConnected(name)) == "\u{2713} Client connected: "@ + name,
        event_line(EventRecord::ClientMessage(name, text)) == "["@ + name + "] "@ + text,
        event_line(EventRecord::ClientList(clients)) == "Clients ("@ + dec(clients.len()) + "): "@
            + listed(clients, ", "@),
{
    reveal_strlit("[");
    reveal_strlit("\u{2713} Client connected: ");
    assert(seq!['['] =~= "["@);
}

/// Writes texts with a separator between each two.
fn list_string(parts: &Vec<String>, from: usize, sep: &str) -> (r: String)
    requires
        from <= parts@.len(),
    ensures
        r@ == listed(texts(parts@).skip(from as int), sep@),
{
    let ghost all = texts(parts@).skip(from as int);
    let mut out: String = String::new();
    let mut i: usize = from;
    assert(all.take(0) =~= Seq::<Seq<char>>::empty());
    assert(out@ =~= listed(all.take(0), sep@));
    while i < parts.len()
        invariant
            from <= i <= parts@.len(),
            all == texts(parts@).skip(from as int),
            out@ == listed(all.take(i - from), sep@),
        decreases parts@.len() - i,
    {
        let ghost done = all.take(i - from);
        if i > from {
            out.append(sep);
        }
        out.append(parts[i].as_str());
        proof {
            assert(all.take(i + 1 - from).drop_last() =~= done);
            assert(all.take(i + 1 - from).last() == parts@[i as int]@);
            if i == from {
                assert(out@ =~= parts@[i as int]@);
            } else {
                assert(out@ =~= listed(done, sep@) + sep@ + parts@[i as int]@);
            }
        }
        i += 1;
    }
    assert(all.take(parts@.len() - from) =~= all);
    out
}

/// The words of a text: what stands between white space.
pub open spec fn words(s: Seq<char>) -> Seq<Seq<char>>
    decreases s.len(),
{
    if s.len() == 0 {
        Seq::empty()
    } else {
        let init = words(s.drop_last());
        let c = s.last();
        if is_white_space(c) {
            init
        } else if s.len() > 1 && !is_white_space(s[s.len() - 2]) {
            init.update(init.len() - 1, init.last().push(c))
        } else {
            init.push(seq![c])
        }
    }
}

/// There is a word wherever there is a character that is no white space.
proof fn lemma_words_some(s: Seq<char>)
    requires
        s.len() > 0,
        !is_white_space(s.last()),
    ensures
        words(s).len() > 0,
    decreases s.len(),
{
    if s.len() > 1 && !is_white_space(s[s.len() - 2]) {
        lemma_words_some(s.drop_last());
    }
}

/// Splits a text into its words.
fn split_words(s: &str) -> (r: Vec<String>)
    ensures
        texts(r@) == words(s@),
{
    let chars: Vec<char> = chars_of(s);
    let mut out: Vec<String> = Vec::new();
    let mut i: usize = 0;
    assert(chars@.take(0) =~= Seq::<char>::empty());
    assert(texts(out@) =~= words(chars@.take(0)));
    while i < chars.len()
        invariant
            i <= chars@.len(),
            texts(out@) == words(chars@.take(i as int)),
        decreases chars@.len() - i,
    {
        let c: char = chars[i];
        let ghost before = texts(out@);
        let ghost s0 = chars@.take(i as int);
        let ghost s1 = chars@.take(i + 1);
        assert(s1.drop_last() =~= s0);
        assert(s1.last() == c);
        if !c.is_whitespace() {
            if i > 0 && !chars[i - 1].is_whitespace() {
                proof {
                    assert(s0.last() == chars@[i - 1]);
                    lemma_words_some(s0);
                    assert(texts(out@).len() == out@.len());
                    assert(s1[s1.len() - 2] == chars@[i - 1]);
                }
                let mut word: String = match out.pop() {
                    Some(w) => w,
                    None => String::new(),
                };
                assert(before.last() == word@);
                word.push(c);
                out.push(word);
                assert(texts(out@) =~= before.update(before.len() - 1, before.last().push(c)));
            } else {
                let mut word: String = String::new();
                word.push(c);
                assert(word@ =~= seq![c]);
                out.push(word);
                proof {
                    if i > 0 {
                        assert(s1[s1.len() - 2] == chars@[i - 1]);
                    }
                }
                assert(texts(out@) =~= before.push(seq![c]));
            }
        }
        i += 1;
    }
    assert(chars@.take(chars@.len() as int) =~= chars@);
    out
}

/// The log keeps its last hundred lines, in their order; the line that came last is always
/// among them.
pub proof fn lemma_logs_after(logs: Seq<Seq<char>>, log: Seq<char>)
    requires
        logs.len() <= 100,
    ensures
        logs_after(logs, log).last() == log,
        logs.len() < 100 ==> logs_after(logs, log).len() == logs.len() + 1,
        logs.len() == 100 ==> logs_after(logs, log).len() == 100,
        forall|i: int|
            0 <= i < logs_after(logs, log).len() - 1 ==> #[trigger] logs_after(logs, log)[i]
                == logs[i + logs.len() + 1 - logs_after(logs, log).len()],
{
}

/// A word: some characters, none of them white space.
pub open spec fn is_plain_word(w: Seq<char>) -> bool {
    w.len() > 0 && forall|i: int| 0 <= i < w.len() ==> !is_white_space(#[trigger] w[i])
}

/// One more word behind white space.
proof fn lemma_words_push(s: Seq<char>, space: char, w: Seq<char>)
    requires
        is_white_space(space),
        is_plain_word(w),
    ensures
        words(s.push(space) + w) == words(s).push(w),
    decreases w.len(),
{
    let all = s.push(space) + w;
    let init = w.drop_last();
    assert(all.drop_last() =~= s.push(space) + init);
    assert(all.last() == w.last());
    assert(!is_white_space(w[w.len() - 1]));
    if init.len() == 0 {
        assert(all.drop_last() =~= s.push(space));
        assert(s.push(space).drop_last() =~= s);
        assert(s.push(space).last() == space);
        assert(words(s.push(space)) == words(s));
        assert(words(all.drop_last()) == words(s));
        assert(all[all.len() - 2] == space);
        assert(w =~= seq![w.last()]);
        assert(words(all) == words(s).push(seq![w.last()]));
    } else {
        assert forall|i: int| 0 <= i < init.len() implies !is_white_space(#[trigger] init[i]) by {
            assert(init[i] == w[i]);
        }
        lemma_words_push(s, space, init);
        assert(all[all.len() - 2] == w[w.len() - 2]);
        assert(!is_white_space(w[w.len() - 2]));
        assert(words(all.drop_last()) == words(s).push(init));
        assert(words(s).push(init).update(words(s).len() as int, init.push(w.last()))
            =~= words(s).push(w)) by {
            assert(init.push(w.last()) =~= w);
        }
    }
}

/// A word alone.
proof fn lemma_words_one(w: Seq<char>)
    requires
        is_plain_word(w),
    ensures
        words(w) == seq![w],
    decreases w.len(),
{
    let init = w.drop_last();
    assert(!is_white_space(w[w.len() - 1]));
    if init.len() == 0 {
        assert(words(init) =~= Seq::empty());
        assert(w =~= seq![w.last()]);
        assert(words(w) =~= seq![w]);
    } else {
        assert forall|i: int| 0 <= i < init.len() implies !is_white_space(#[trigger] init[i]) by {
            assert(init[i] == w[i]);
        }
        lemma_words_one(init);
        assert(!is_white_space(w[w.len() - 2]));
        assert(init.push(w.last()) =~= w);
        assert(words(w) =~= seq![w]);
    }
}

/// Words with white space between each two are read as those words, all of them.
pub proof fn lemma_words_joined(ws: Seq<Seq<char>>, space: char)
    requires
        is_white_space(space),
        forall|i: int| 0 <= i < ws.len() ==> is_plain_word(#[trigger] ws[i]),
    ensures
        words(joined(ws, space)) == ws,
    decreases ws.len(),
{
    if ws.len() == 0 {
        assert(words(joined(ws, space)) =~= ws);
    } else if ws.len() == 1 {
        lemma_words_one(ws[0]);
        assert(ws =~= seq![ws[0]]);
    } else {
        let init = ws.drop_last();
        assert forall|i: int| 0 <= i < init.len() implies is_plain_word(#[trigger] init[i]) by {
            assert(init[i] == ws[i]);
        }
        lemma_words_joined(init, space);
        assert(is_plain_word(ws[ws.len() - 1]));
        lemma_words_push(joined(init, space), space, ws.last());
        assert(init.push(ws.last()) =~= ws);
    }
}

/// Texts are listed as they are joined, with the separator between each two.
pub proof fn lemma_listed(parts: Seq<Seq<char>>, sep: Seq<char>, next: Seq<char>)
    ensures
        listed(Seq::empty(), sep).len() == 0,
        listed(seq![next], sep) == next,
        parts.len() > 0 ==> listed(parts.push(next), sep) == listed(parts, sep) + sep + next,
{
    assert(parts.push(next).drop_last() =~= parts);
}

/// Listing with one space joins with it.
proof fn lemma_listed_spaces(parts: Seq<Seq<char>>)
    ensures
        listed(parts, " "@) == joined(parts, ' '),
    decreases parts.len(),
{
    reveal_strlit(" ");
    if parts.len() > 1 {
        lemma_listed_spaces(parts.drop_last());
        let a = joined(parts.drop_last(), ' ');
        assert(a + " "@ + parts.last() =~= a.push(' ') + parts.last());
    }
}

/// A key that was pressed.
#[derive(Clone, Copy, Debug, PartialEq, Eq, Structural)]
pub enum Key {
    Char(char),
    Backspace,
    Enter,
    Esc,
    Other,
}

/// What a key asks for.
pub enum KeyOutcome {
    /// Nothing but what is on the screen.
    Stay,
    /// Hand a command to the server.
    Send(Command),
    /// Hand a command to the server, and leave.
    SendAndLeave(Command),
    /// Leave.
    Leave,
}

/// A `KeyOutcome` with its texts as character sequences.
pub enum KeyRecord {
    Stay,
    Send(CommandRecord),
    SendAndLeave(CommandRecord),
    Leave,
}

impl View for KeyOutcome {
    type V = KeyRecord;

    open spec fn view(&self) -> KeyRecord {
        match self {
            KeyOutcome::Stay => KeyRecord::Stay,
            KeyOutcome::Send(c) => KeyRecord::Send(c@),
            KeyOutcome::SendAndLeave(c) => KeyRecord::SendAndLeave(c@),
            KeyOutcome::Leave => KeyRecord::Leave,
        }
    }
}

/// What a typed line asks for; nothing where there is no such command.
pub open spec fn line_outcome(line: Seq<char>) -> Option<KeyRecord> {
    let w = words(line);
    if w.len() == 0 {
        Some(KeyRecord::Stay)
    } else if w[0] == "list"@ {
        Some(KeyRecord::Send(CommandRecord::ListClients))
    } else if w[0] == "broadcast"@ && w.len() > 1 {
        Some(KeyRecord::Send(CommandRecord::SendBroadcast(listed(w.skip(1), " "@))))
    } else if w[0] == "quit"@ || w[0] == "exit"@ {
        Some(KeyRecord::SendAndLeave(CommandRecord::Shutdown))
    } else {
        None
    }
}

/// What is typed behind `broadcast` goes out as a message, all words of it.
pub proof fn lemma_typed_broadcast(ws: Seq<Seq<char>>)
    requires
        ws.len() > 0,
        forall|i: int| 0 <= i < ws.len() ==> is_plain_word(#[trigger] ws[i]),
    ensures
        line_outcome("broadcast "@ + joined(ws, ' ')) == Some(
            KeyRecord::Send(CommandRecord::SendBroadcast(joined(ws, ' '))),
        ),
{
    reveal_strlit("broadcast");
    reveal_strlit("broadcast ");
    reveal_strlit("list");
    let all = seq!["broadcast"@] + ws;
    assert forall|i: int| 0 <= i < all.len() implies is_plain_word(#[trigger] all[i]) by {
        if i > 0 {
            assert(all[i] == ws[i - 1]);
        }
    }
    lemma_words_joined(all, ' ');
    lemma_joined_first("broadcast"@, ws);
    assert("broadcast"@.push(' ') =~= "broadcast "@);
    assert(all.skip(1) =~= ws);
    lemma_listed_spaces(ws);
    assert("broadcast"@.len() != "list"@.len());
}

/// One more text before others.
proof fn lemma_joined_first(first: Seq<char>, ws: Seq<Seq<char>>)
    requires
        ws.len() > 0,
    ensures
        joined(seq![first] + ws, ' ') == first.push(' ') + joined(ws, ' '),
    decreases ws.len(),
{
    let all = seq![first] + ws;
    let init = ws.drop_last();
    assert(all.drop_last() =~= seq![first] + init);
    assert(all.last() == ws.last());
    if init.len() == 0 {
        assert(seq![first] + init =~= seq![first]);
        assert(joined(all.drop_last(), ' ') == first);
        assert(joined(ws, ' ') == ws.last());
    } else {
        lemma_joined_first(first, init);
        assert(first.push(' ') + joined(init, ' ').push(' ') + ws.last() =~= (first.push(' ')
            + joined(init, ' ')).push(' ') + ws.last());
        assert(joined(all, ' ') =~= first.push(' ') + joined(ws, ' '));
    }
}

/// What else a typed line asks for goes by its first word; a line without words asks for
/// nothing, and one that starts with any other word is unknown.
pub proof fn lemma_typed(line: Seq<char>)
    ensures
        words(line).len() == 0 ==> line_outcome(line) == Some(KeyRecord::Stay),
        words(line).len() > 0 && words(line)[0] == "list"@ ==> line_outcome(line) == Some(
            KeyRecord::Send(CommandRecord::ListClients),
        ),
        words(line).len() > 0 && (words(line)[0] == "quit"@ || words(line)[0] == "exit"@)
            ==> line_outcome(line) == Some(KeyRecord::SendAndLeave(CommandRecord::Shutdown)),
        words(line).len() > 0 && words(line)[0] != "list"@ && words(line)[0] != "quit"@ && words(
            line,
        )[0] != "exit"@ && (words(line)[0] != "broadcast"@ || words(line).len() == 1)
            ==> line_outcome(line) is None,
{
    reveal_strlit("list");
    reveal_strlit("quit");
    reveal_strlit("exit");
    reveal_strlit("broadcast");
    assert("list"@[0] == 'l' && "quit"@[0] == 'q' && "exit"@[0] == 'e');
}

/// Reads a typed line.
fn read_command(line: &str) -> (r: Option<KeyOutcome>)
    ensures
        match r {
            Some(o) => line_outcome(line@) == Some(o@),
            None => line_outcome(line@) is None,
        },
{
    let parts: Vec<String> = split_words(line);
    assert(texts(parts@).len() == parts@.len());
    if parts.len() == 0 {
        return Some(KeyOutcome::Stay);
    }
    assert(words(line@)[0] == parts@[0]@);
    let first: &str = parts[0].as_str();
    if str_eq(first, "list") {
        Some(KeyOutcome::Send(Command::ListClients))
    } else if str_eq(first, "broadcast") && parts.len() > 1 {
        Some(KeyOutcome::Send(Command::SendBroadcast(list_string(&parts, 1, " "))))
    } else if str_eq(first, "quit") || str_eq(first, "exit") {
        Some(KeyOutcome::SendAndLeave(Command::Shutdown))
    } else {
        None
    }
}

impl App {
    /// The log is not too long, and its last line is the one in view.
    pub open spec fn wf(&self) -> bool {
        &&& self.logs@.len() <= MAX_LOGS
        &&& self.log_scroll == (if self.logs@.len() == 0 {
            0
        } else {
            self.logs@.len() - 1
        })
    }

    /// An empty screen.
    pub fn new() -> (r: App)
        ensures
            r.wf(),
            r.logs@.len() == 0,
            r.input@ == Seq::<char>::empty(),
            r.clients@.len() == 0,
    {
        let input: String = String::new();
        assert(input@ =~= Seq::<char>::empty());
        App { logs: Vec::new(), input, clients: Vec::new(), log_scroll: 0 }
    }

    /// Adds a line to the log.
    pub fn add_log(&mut self, log: String)
        requires
            old(self).wf(),
        ensures
            final(self).wf(),
            texts(final(self).logs@) == logs_after(texts(old(self).logs@), log@),
            final(self).input@ == old(self).input@,
            final(self).clients@ == old(self).clients@,
    {
        let ghost before = texts(self.logs@);
        self.logs.push(log);
        assert(texts(self.logs@) =~= before.push(log@));
        if self.logs.len() > MAX_LOGS {
            let _ = self.logs.remove(0);
            assert(texts(self.logs@) =~= before.push(log@).skip(1));
        }
        self.log_scroll = self.logs.len() - 1;
    }

    /// Takes in what the server has to say.
    pub fn on_server_event(&mut self, event: ServerEvent)
        requires
            old(self).wf(),
        ensures
            final(self).wf(),
            texts(final(self).logs@) == logs_after(texts(old(self).logs@), event_line(event@)),
            final(self).input@ == old(self).input@,
            texts(final(self).clients@) == (match event@ {
                EventRecord::ClientList(clients) => clients,
                _ => texts(old(self).clients@),
            }),
    {
        match event {
            ServerEvent::ClientConnected(name) => {
                let mut line: String = String::new();
                line.append("✓ Client connected: ");
                line.append(name.as_str());
                assert(line@ =~= "✓ Client connected: "@ + name@);
                self.add_log(line);
            },
            ServerEvent::ClientMessage(name, msg) => {
                let mut line: String = String::new();
                line.push('[');
                line.append(name.as_str());
                line.append("] ");
                line.append(msg.as_str());
                assert(line@ =~= seq!['['] + name@ + "] "@ + msg@);
                self.add_log(line);
            },
            ServerEvent::ClientList(clients) => {
                let mut line: String = String::new();
                line.append("Clients (");
                push_dec(&mut line, clients.len() as u64);
                line.append("): ");
                let list = list_string(&clients, 0, ", ");
                line.append(list.as_str());
                proof {
                    assert(texts(clients@).skip(0) =~= texts(clients@));
                    assert(texts(clients@).len() == clients@.len());
                    assert(line@ =~= "Clients ("@ + dec(clients@.len()) + "): "@ + list@);
                }
                self.clients = clients;
                self.add_log(line);
            },
            ServerEvent::Log(log) => {
                self.add_log(log);
            },
        }
    }

    /// Takes in a key.
    pub fn on_key(&mut self, key: Key) -> (r: KeyOutcome)
        requires
            old(self).wf(),
        ensures
            final(self).wf(),
            texts(final(self).clients@) == texts(old(self).clients@),
            match key {
                Key::Char(c) => {
                    &&& r@ == KeyRecord::Stay
                    &&& final(self).input@ == old(self).input@.push(c)
                    &&& texts(final(self).logs@) == texts(old(self).logs@)
                },
                Key::Backspace => {
                    &&& r@ == KeyRecord::Stay
                    &&& final(self).input@ == (if old(self).input@.len() == 0 {
                        old(self).input@
                    } else {
                        old(self).input@.drop_last()
                    })
                    &&& texts(final(self).logs@) == texts(old(self).logs@)
                },
                Key::Enter => {
                    &&& final(self).input@.len() == 0
                    &&& match line_outcome(old(self).input@) {
                        Some(o) => r@ == o && texts(final(self).logs@) == texts(old(self).logs@),
                        None => r@ == KeyRecord::Stay && texts(final(self).logs@) == logs_after(
                            texts(old(self).logs@),
                            "Unknown command: "@ + old(self).input@,
                        ),
                    }
                },
                Key::Esc => {
                    &&& r@ == KeyRecord::Leave
                    &&& final(self).input@ == old(self).input@
                    &&& texts(final(self).logs@) == texts(old(self).logs@)
                },
                Key::Other => {
                    &&& r@ == KeyRecord::Stay
                    &&& final(self).input@ == old(self).input@
                    &&& texts(final(self).logs@) == texts(old(self).logs@)
                },
            },
    {
        match key {
            Key::Char(c) => {
                self.input.push(c);
                KeyOutcome::Stay
            },
            Key::Backspace => {
                let chars: Vec<char> = chars_of(self.input.as_str());
                if chars.len() > 0 {
                    let shorter: &str = self.input.as_str().substring_char(0, chars.len() - 1);
                    assert(shorter@ =~= self.input@.drop_last());
                    self.input = shorter.to_owned();
                }
                KeyOutcome::Stay
            },
            Key::Enter => {
                let input: String = self.input.clone();
                self.input = String::new();
                assert(self.input@ =~= Seq::<char>::empty());
                match read_command(input.as_str()) {
                    Some(o) => o,
                    None => {
                        let mut line: String = String::new();
                        line.append("Unknown command: ");
                        line.append(input.as_str());
                        assert(line@ =~= "Unknown command: "@ + input@);
                        self.add_log(line);
                        KeyOutcome::Stay
                    },
                }
            },
            Key::Esc => KeyOutcome::Leave,
            Key::Other => KeyOutcome::Stay,
        }
    }
}

/// The line of the log on a record of the program's own log.
pub fn log_line(level: &str, text: &str) -> (r: String)
    ensures
        r@ == seq!['['] + level@ + "] "@ + text@,
{
    let mut out: String = String::new();
    out.push('[');
    out.append(level);
    out.append("] ");
    out.append(text);
    assert(out@ =~= seq!['['] + level@ + "] "@ + text@);
    out
}

} // verus!
