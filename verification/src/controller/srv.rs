//! The server: which clients it knows, and what it does for them.
use vstd::prelude::*;
use vstd::utf8::*;
use crate::controller::tlv::ESPEvent;
use crate::controller::tui::{Command, CommandRecord};
use crate::text::{dec, push_dec, texts};
use crate::utf8::{bytes_eq, lossy_string, lossy_text, str_eq};

verus! {

/// What a client is known by.
pub type ClientId = Vec<u8>;

/// What the server has to say.
#[derive(Debug, Clone)]
pub enum ServerEvent {
    ClientConnected(String),
    ClientMessage(String, String),
    ClientList(Vec<String>),
    Log(String),
}

/// A `ServerEvent` with its texts as character sequences.
pub enum EventRecord {
    ClientConnected(Seq<char>),
    ClientMessage(Seq<char>, Seq<char>),
    ClientList(Seq<Seq<char>>),
    Log(Seq<char>),
}

impl View for ServerEvent {
    type V = EventRecord;

    open spec fn view(&self) -> EventRecord {
        match self {
            ServerEvent::ClientConnected(n) => EventRecord::ClientConnected(n@),
            ServerEvent::ClientMessage(n, m) => EventRecord::ClientMessage(n@, m@),
            ServerEvent::ClientList(l) => EventRecord::ClientList(texts(l@)),
            ServerEvent::Log(l) => EventRecord::Log(l@),
        }
    }
}

/// A client and its name.
pub struct Client {
    pub id: ClientId,
    pub name: String,
}

/// A `Client` with its texts as sequences.
pub struct ClientRecord {
    pub id: Seq<u8>,
    pub name: Seq<char>,
}

impl View for Client {
    type V = ClientRecord;

    open spec fn view(&self) -> ClientRecord {
        ClientRecord { id: self.id@, name: self.name@ }
    }
}

/// What the server does.
pub enum ServerAction {
    /// Send a text to a client.
    Send(ClientId, String),
    /// Say something.
    Emit(ServerEvent),
    /// Stop.
    Stop,
}

/// A `ServerAction` with its texts as sequences.
pub enum ActionRecord {
    Send(Seq<u8>, Seq<char>),
    Emit(EventRecord),
    Stop,
}

impl View for ServerAction {
    type V = ActionRecord;

    open spec fn view(&self) -> ActionRecord {
        match self {
            ServerAction::Send(id, text) => ActionRecord::Send(id@, text@),
            ServerAction::Emit(e) => ActionRecord::Emit(e@),
            ServerAction::Stop => ActionRecord::Stop,
        }
    }
}

/// Actions with their texts as sequences.
pub open spec fn action_records(actions: Seq<ServerAction>) -> Seq<ActionRecord> {
    actions.map_values(|a: ServerAction| a@)
}

/// The clients that the server knows, in the order in which they came, each once;
/// and how many CSI events it has taken in since it was asked last, modulo 2^32.
pub struct Server {
    pub clients: Vec<Client>,
    pub csi_count: u32,
}

impl View for Server {
    type V = Seq<ClientRecord>;

    open spec fn view(&self) -> Seq<ClientRecord> {
        self.clients@.map_values(|c: Client| c@)
    }
}

/// No client occurs twice.
pub open spec fn ids_distinct(clients: Seq<ClientRecord>) -> bool {
    forall|i: int, j: int| 0 <= i < j < clients.len() ==> clients[i].id != clients[j].id
}

/// A client is known.
pub open spec fn knows(clients: Seq<ClientRecord>, id: Seq<u8>) -> bool {
    exists|i: int| 0 <= i < clients.len() && (#[trigger] clients[i]).id == id
}

/// The clients after one of them has sent something.
pub open spec fn clients_after(clients: Seq<ClientRecord>, id: Seq<u8>) -> Seq<ClientRecord> {
    if knows(clients, id) {
        clients
    } else {
        clients.push(ClientRecord { id, name: lossy_text(id) })
    }
}

/// What is said of a new client.
pub open spec fn connected_text(name: Seq<char>, total: nat) -> Seq<char> {
    seq!['['] + name + "] Connected (total: "@ + dec(total) + seq![')']
}

/// What the server says when a client has sent something: its name and how many
/// there are now, if it is new.
pub open spec fn greetings(clients: Seq<ClientRecord>, id: Seq<u8>) -> Seq<ActionRecord> {
    if knows(clients, id) {
        Seq::empty()
    } else {
        seq![
            ActionRecord::Emit(EventRecord::ClientConnected(lossy_text(id))),
            ActionRecord::Emit(
                EventRecord::Log(connected_text(lossy_text(id), clients.len() + 1)),
            ),
        ]
    }
}

/// The first client from `i` on with the given name, or the number of clients.
pub open spec fn named(clients: Seq<ClientRecord>, name: Seq<char>, i: int) -> int
    decreases clients.len() - i,
{
    if i >= clients.len() {
        clients.len() as int
    } else if clients[i].name == name {
        i
    } else {
        named(clients, name, i + 1)
    }
}

/// What the server does on a command.
pub open spec fn command_actions(clients: Seq<ClientRecord>, cmd: CommandRecord) -> Seq<
    ActionRecord,
> {
    match cmd {
        CommandRecord::ListClients => seq![
            ActionRecord::Emit(
                EventRecord::ClientList(clients.map_values(|c: ClientRecord| c.name)),
            ),
        ],
        CommandRecord::SendBroadcast(msg) => clients.map_values(
            |c: ClientRecord| ActionRecord::Send(c.id, msg),
        ).push(ActionRecord::Emit(EventRecord::Log("Broadcast: "@ + msg))),
        CommandRecord::SendToClient(name, msg) => {
            let k = named(clients, name, 0);
            if k < clients.len() {
                seq![
                    ActionRecord::Send(clients[k].id, msg),
                    ActionRecord::Emit(
                        EventRecord::Log("Sent to "@ + name + ": "@ + msg),
                    ),
                ]
            } else {
                Seq::empty()
            }
        },
        CommandRecord::Shutdown => seq![
            ActionRecord::Emit(EventRecord::Log("Server shutting down..."@)),
            ActionRecord::Stop,
        ],
    }
}

/// After a client has sent something it is known, under the name that its address reads
/// as; the clients that were known stay, in their order, and nobody else is added.
pub proof fn lemma_clients_after(clients: Seq<ClientRecord>, id: Seq<u8>)
    ensures
        ({
            let after = clients_after(clients, id);
            let new = forall|i: int| 0 <= i < clients.len() ==> (#[trigger] clients[i]).id != id;
            &&& new ==> after.len() == clients.len() + 1 && after.last().id == id
                && after.last().name == lossy_text(id)
            &&& !new ==> after == clients
            &&& forall|i: int| 0 <= i < clients.len() ==> #[trigger] after[i] == clients[i]
            &&& clients_after(after, id) == after
            &&& greetings(after, id).len() == 0
            &&& new ==> greetings(clients, id) == seq![
                ActionRecord::Emit(EventRecord::ClientConnected(lossy_text(id))),
                ActionRecord::Emit(
                    EventRecord::Log(
                        seq!['['] + lossy_text(id) + "] Connected (total: "@ + dec(after.len())
                            + seq![')'],
                    ),
                ),
            ]
            &&& !new ==> greetings(clients, id).len() == 0
        }),
{
    let after = clients_after(clients, id);
    if !knows(clients, id) {
        assert(after[clients.len() as int].id == id);
        assert(knows(after, id));
    }
}

/// What `named` finds.
proof fn lemma_named(clients: Seq<ClientRecord>, name: Seq<char>, i: int)
    requires
        0 <= i <= clients.len(),
    ensures
        i <= named(clients, name, i) <= clients.len(),
        named(clients, name, i) < clients.len() ==> clients[named(clients, name, i)].name == name,
        forall|j: int| i <= j < named(clients, name, i) ==> (#[trigger] clients[j]).name != name,
    decreases clients.len() - i,
{
    if i < clients.len() {
        lemma_named(clients, name, i + 1);
    }
}

/// A broadcast goes to every client, to each once, however many there are, with the text
/// as it was given; and that is said.
pub proof fn lemma_broadcast(clients: Seq<ClientRecord>, msg: Seq<char>, k: int)
    requires
        0 <= k < clients.len(),
    ensures
        ({
            let actions = command_actions(clients, CommandRecord::SendBroadcast(msg));
            &&& actions.len() == clients.len() + 1
            &&& actions[k] == ActionRecord::Send(clients[k].id, msg)
            &&& actions.last() == ActionRecord::Emit(EventRecord::Log("Broadcast: "@ + msg))
        }),
{
}

/// A text for one client goes to the first of that name, and to no other; without such a
/// client nothing is done.
pub proof fn lemma_send_to(clients: Seq<ClientRecord>, name: Seq<char>, msg: Seq<char>, k: int)
    requires
        0 <= k < clients.len(),
    ensures
        ({
            let actions = command_actions(clients, CommandRecord::SendToClient(name, msg));
            &&& clients[k].name == name && (forall|j: int|
                0 <= j < k ==> (#[trigger] clients[j]).name != name) ==> actions.len() == 2
                && actions[0] == ActionRecord::Send(clients[k].id, msg) && actions[1]
                == ActionRecord::Emit(EventRecord::Log("Sent to "@ + name + ": "@ + msg))
            &&& (forall|j: int| 0 <= j < clients.len() ==> (#[trigger] clients[j]).name != name)
                ==> actions.len() == 0
        }),
{
    lemma_named(clients, name, 0);
}

/// All clients are listed by name, in their order; and the server stops when it is told to,
/// and only then.
pub proof fn lemma_list_and_stop(clients: Seq<ClientRecord>, cmd: CommandRecord)
    ensures
        match command_actions(clients, CommandRecord::ListClients) {
            actions => actions.len() == 1 && match actions[0] {
                ActionRecord::Emit(EventRecord::ClientList(names)) => {
                    &&& names.len() == clients.len()
                    &&& forall|k: int|
                        0 <= k < clients.len() ==> #[trigger] names[k] == clients[k].name
                },
                _ => false,
            },
        },
        command_actions(clients, cmd).contains(ActionRecord::Stop) <==> cmd is Shutdown,
{
    let actions = command_actions(clients, cmd);
    if cmd is Shutdown {
        assert(actions[1] == ActionRecord::Stop);
    } else {
        assert forall|k: int| 0 <= k < actions.len() implies actions[k] != ActionRecord::Stop by {}
    }
}

/// Parts a message into the client that it is from and what the client sent;
/// nothing where it is too short for that.
pub fn client_message(parts: &Vec<Vec<u8>>) -> (r: Option<(ClientId, Vec<u8>)>)
    ensures
        match r {
            Some((id, payload)) => parts@.len() >= 2 && id@ == parts@[0]@ && payload@
                == parts@[1]@,
            None => parts@.len() < 2,
        },
{
    if parts.len() < 2 {
        return None;
    }
    let id: ClientId = parts[0].clone();
    let payload: Vec<u8> = parts[1].clone();
    assert(id@ =~= parts@[0]@);
    assert(payload@ =~= parts@[1]@);
    Some((id, payload))
}

/// The frames of a text for a client: its address, an empty frame, and the text.
pub open spec fn frames_to(id: Seq<u8>, text: Seq<char>) -> Seq<Seq<u8>> {
    seq![id, Seq::empty(), encode_utf8(text)]
}

/// Puts together the frames of a text for a client.
pub fn client_frames(id: &ClientId, text: &str) -> (r: Vec<Vec<u8>>)
    ensures
        r@.map_values(|f: Vec<u8>| f@) == frames_to(id@, text@),
{
    let address: ClientId = id.clone();
    assert(address@ =~= id@);
    let mut body: Vec<u8> = Vec::new();
    body.extend_from_slice(text.as_bytes());
    assert(body@ =~= encode_utf8(text@));
    let mut frames: Vec<Vec<u8>> = Vec::new();
    frames.push(address);
    let empty: Vec<u8> = Vec::new();
    assert(empty@ =~= Seq::<u8>::empty());
    frames.push(empty);
    frames.push(body);
    assert(frames@.map_values(|f: Vec<u8>| f@) =~= frames_to(id@, text@));
    frames
}

/// A text goes to the client by its address, which is the first of three frames; the second
/// is empty, and the client reads in the last one the text that was sent to it.
pub proof fn lemma_frames_read(id: Seq<u8>, text: Seq<char>)
    ensures
        frames_to(id, text).len() == 3,
        frames_to(id, text)[0] == id,
        frames_to(id, text)[1].len() == 0,
        valid_utf8(frames_to(id, text).last()),
        decode_utf8(frames_to(id, text).last()) == text,
{
    encode_utf8_valid_utf8(text);
    encode_utf8_decode_utf8(text);
}

impl Server {
    /// No client occurs twice.
    pub open spec fn wf(&self) -> bool {
        ids_distinct(self@)
    }

    /// A server without clients.
    pub fn new() -> (r: Self)
        ensures
            r.wf(),
            r@ == Seq::<ClientRecord>::empty(),
            r.csi_count == 0,
    {
        let r = Server { clients: Vec::new(), csi_count: 0 };
        assert(r@ =~= Seq::<ClientRecord>::empty());
        r
    }

    /// Whether a client is known.
    fn is_known(&self, id: &ClientId) -> (r: bool)
        ensures
            r == knows(self@, id@),
    {
        let mut i: usize = 0;
        while i < self.clients.len()
            invariant
                i <= self.clients@.len(),
                forall|k: int| 0 <= k < i ==> (#[trigger] self@[k]).id != id@,
            decreases self.clients@.len() - i,
        {
            if bytes_eq(self.clients[i].id.as_slice(), id.as_slice()) {
                assert(self@[i as int].id == id@);
                return true;
            }
            assert(self@[i as int] == self.clients@[i as int]@);
            i += 1;
        }
        assert(self@.len() == self.clients@.len());
        false
    }

    /// Takes in an event of a client.
    pub fn on_event(&mut self, id: ClientId, event: &ESPEvent) -> (r: Vec<ServerAction>)
        requires
            old(self).wf(),
        ensures
            final(self).wf(),
            final(self)@ == clients_after(old(self)@, id@),
            action_records(r@) == greetings(old(self)@, id@),
            final(self).csi_count == (if event@ is CSI {
                old(self).csi_count.wrapping_add(1)
            } else {
                old(self).csi_count
            }),
    {
        let ghost before = self@;
        let mut actions: Vec<ServerAction> = Vec::new();
        if !self.is_known(&id) {
            let name: String = lossy_string(id.as_slice());
            let mut text: String = String::new();
            text.push('[');
            text.append(name.as_str());
            text.append("] Connected (total: ");
            let ghost key = id@;
            self.clients.push(Client { id, name: name.clone() });
            assert(self@ =~= before.push(ClientRecord { id: key, name: lossy_text(key) }));
            proof {
                assert forall|i: int, j: int| 0 <= i < j < self@.len() implies self@[i].id
                    != self@[j].id by {
                    if j == before.len() {
                        assert(self@[i] == before[i]);
                    } else {
                        assert(self@[i] == before[i] && self@[j] == before[j]);
                    }
                }
            }
            push_dec(&mut text, self.clients.len() as u64);
            text.push(')');
            assert(self@.len() == self.clients@.len());
            assert(text@ =~= connected_text(lossy_text(key), before.len() + 1));
            actions.push(ServerAction::Emit(ServerEvent::ClientConnected(name)));
            actions.push(ServerAction::Emit(ServerEvent::Log(text)));
        }
        assert(action_records(actions@) =~= greetings(before, id@));
        match event {
            ESPEvent::CSI(_) => {
                self.csi_count = self.csi_count.wrapping_add(1);
            },
            _ => {},
        }
        assert(self@ =~= clients_after(before, id@));
        actions
    }

    /// How many CSI events came since this was asked last.
    pub fn take_csi_count(&mut self) -> (r: u32)
        ensures
            r == old(self).csi_count,
            final(self).csi_count == 0,
            final(self)@ == old(self)@,
    {
        let n: u32 = self.csi_count;
        self.csi_count = 0;
        n
    }

    /// The names of all clients.
    fn names(&self) -> (r: Vec<String>)
        ensures
            texts(r@) == self@.map_values(|c: ClientRecord| c.name),
    {
        let mut names: Vec<String> = Vec::new();
        let mut i: usize = 0;
        while i < self.clients.len()
            invariant
                i <= self.clients@.len(),
                names@.len() == i,
                forall|k: int| 0 <= k < i ==> (#[trigger] names@[k])@ == self@[k].name,
            decreases self.clients@.len() - i,
        {
            names.push(self.clients[i].name.clone());
            i += 1;
        }
        assert(texts(names@) =~= self@.map_values(|c: ClientRecord| c.name));
        names
    }

    /// What is to be done on a command.
    pub fn on_command(&self, cmd: &Command) -> (r: Vec<ServerAction>)
        ensures
            action_records(r@) == command_actions(self@, cmd@),
    {
        let mut actions: Vec<ServerAction> = Vec::new();
        match cmd {
            Command::ListClients => {
                actions.push(ServerAction::Emit(ServerEvent::ClientList(self.names())));
            },
            Command::SendBroadcast(msg) => {
                let mut i: usize = 0;
                while i < self.clients.len()
                    invariant
                        i <= self.clients@.len(),
                        actions@.len() == i,
                        forall|k: int|
                            0 <= k < i ==> (#[trigger] actions@[k])@ == ActionRecord::Send(
                                self@[k].id,
                                msg@,
                            ),
                    decreases self.clients@.len() - i,
                {
                    let id: ClientId = self.clients[i].id.clone();
                    assert(id@ =~= self@[i as int].id);
                    actions.push(ServerAction::Send(id, msg.clone()));
                    i += 1;
                }
                let mut text: String = String::new();
                text.append("Broadcast: ");
                text.append(msg.as_str());
                assert(text@ =~= "Broadcast: "@ + msg@);
                actions.push(ServerAction::Emit(ServerEvent::Log(text)));
            },
            Command::SendToClient(name, msg) => {
                let mut i: usize = 0;
                while i < self.clients.len()
                    invariant
                        i <= self.clients@.len(),
                        actions@.len() == 0,
                        *cmd == Command::SendToClient(*name, *msg),
                        named(self@, name@, 0) == named(self@, name@, i as int),
                    decreases self.clients@.len() - i,
                {
                    assert(self@[i as int] == self.clients@[i as int]@);
                    if str_eq(self.clients[i].name.as_str(), name.as_str()) {
                        let id: ClientId = self.clients[i].id.clone();
                        assert(id@ =~= self@[i as int].id);
                        let mut text: String = String::new();
                        text.append("Sent to ");
                        text.append(name.as_str());
                        text.append(": ");
                        text.append(msg.as_str());
                        assert(text@ =~= "Sent to "@ + name@ + ": "@ + msg@);
                        actions.push(ServerAction::Send(id, msg.clone()));
                        actions.push(ServerAction::Emit(ServerEvent::Log(text)));
                        assert(action_records(actions@) =~= command_actions(self@, cmd@));
                        return actions;
                    }
                    i += 1;
                }
                assert(self@.len() == self.clients@.len());
            },
            Command::Shutdown => {
                actions.push(
                    ServerAction::Emit(ServerEvent::Log("Server shutting down...".to_owned())),
                );
                actions.push(ServerAction::Stop);
            },
        }
        assert(action_records(actions@) =~= command_actions(self@, cmd@));
        actions
    }
}

} // verus!
