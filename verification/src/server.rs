//! The connected clients, the scene they bring about, and what they are told.
//!
//! The daemon around this module owns the sockets. It reports what happens (a hello, a
//! new region, a disconnection, the session tmux shows) and sends out what it is given.
use crate::protocol::{Hello, Notice, Rect, RectUpdate, Status, StatusReply, Visible};
use crate::protocol::STATUS_QUERY_NAME;
use crate::scenes::Config;
use crate::scenes;
use crate::text;
use crate::visibility::{Layer, LayerInfo, Stage};
use crate::visibility;
use vstd::prelude::*;

verus! {

/// A connected client.
pub struct Client {
    pub id: u64,
    pub name: String,
    /// The tmux session the client is bound to, if any.
    pub session: Option<String>,
    /// The region the client draws in, if it declared one.
    pub rect: Option<Rect>,
}

impl View for Client {
    type V = Layer;

    open spec fn view(&self) -> Layer {
        Layer {
            id: self.id,
            name: self.name@,
            session: text::string_of(self.session),
            rect: self.rect,
        }
    }
}

/// The clients in a list.
pub open spec fn clients_in(list: Seq<Client>) -> Seq<Layer> {
    list.map_values(|c: Client| c@)
}

/// What the server keeps: the clients in the order of their hellos, and the session tmux
/// shows, where it is known.
pub struct Shared {
    pub clients: Vec<Client>,
    pub active_session: Option<String>,
}

/// The contents of a [`Shared`].
#[verifier::ext_equal]
pub struct State {
    pub clients: Seq<Layer>,
    pub active: Option<Seq<char>>,
}

impl View for Shared {
    type V = State;

    open spec fn view(&self) -> State {
        State {
            clients: clients_in(self.clients@),
            active: text::string_of(self.active_session),
        }
    }
}

/// The scene that a list of clients brings about: the one named by the last client whose
/// name is that of a scene, or `"default"`.
pub open spec fn scene_of(
    clients: Seq<Layer>,
    table: Map<Seq<char>, Seq<Seq<char>>>,
) -> Seq<char>
    decreases clients.len(),
{
    if clients.len() == 0 {
        "default"@
    } else if scenes::is_scene(table, clients.last().name) {
        clients.last().name
    } else {
        scene_of(clients.drop_last(), table)
    }
}

/// The client that a hello registers.
pub open spec fn newcomer(id: u64, hello: Hello) -> Layer {
    Layer {
        id,
        name: hello.hello@,
        session: text::string_of(hello.session),
        rect: hello.rect,
    }
}

/// How a client appears in a status reply: its name, the session it is bound to and the
/// region it declared.
pub open spec fn description(client: Layer) -> Seq<char> {
    let session = match client.session {
        Some(session) => " (session "@ + session + ")"@,
        None => Seq::empty(),
    };
    let region = match client.rect {
        Some(r) => " ["@ + text::decimal(r.w as int) + "x"@ + text::decimal(r.h as int) + "+"@
            + text::decimal(r.x as int) + "+"@ + text::decimal(r.y as int) + "]"@,
        None => Seq::empty(),
    };
    client.name + session + region
}

impl State {
    /// The scene in force.
    pub open spec fn scene(self, table: Map<Seq<char>, Seq<Seq<char>>>) -> Seq<char> {
        scene_of(self.clients, table)
    }

    /// The layers that the scene in force allows.
    pub open spec fn layers(self, table: Map<Seq<char>, Seq<Seq<char>>>) -> Seq<Seq<char>> {
        scenes::layers_in_force(table, self.scene(table))
    }

    /// What the arbitration between the clients depends on.
    pub open spec fn stage(self, table: Map<Seq<char>, Seq<Seq<char>>>) -> Stage {
        Stage { clients: self.clients, layers: self.layers(table), active: self.active }
    }

    /// What client `i` is told.
    pub open spec fn notice(self, table: Map<Seq<char>, Seq<Seq<char>>>, i: int) -> Notice {
        Notice { scene: Some(self.scene(table)), ..self.stage(table).notice(i) }
    }

    /// Whether the tmux status line is to be shown.
    pub open spec fn status_on(self, table: Map<Seq<char>, Seq<Seq<char>>>) -> bool {
        self.layers(table).contains("status-bar"@)
    }

    /// The answer to a status query.
    pub open spec fn status(self, table: Map<Seq<char>, Seq<Seq<char>>>) -> Status {
        Status {
            scene: self.scene(table),
            clients: self.clients.map_values(|c: Layer| description(c)),
            active_session: self.active,
        }
    }

    /// Whether no two clients have the same number.
    pub open spec fn numbered(self) -> bool {
        forall|i: int, j: int|
            0 <= i < j < self.clients.len() ==> #[trigger] self.clients[i].id
                != #[trigger] self.clients[j].id
    }

    /// Whether a client with the number `id` is connected.
    pub open spec fn has(self, id: u64) -> bool {
        exists|i: int| 0 <= i < self.clients.len() && #[trigger] self.clients[i].id == id
    }

    /// Whether some client is bound to a session.
    pub open spec fn bound(self) -> bool {
        exists|i: int| 0 <= i < self.clients.len() && (#[trigger] self.clients[i]).session is Some
    }

    /// The state after `client` has been registered.
    pub open spec fn with(self, client: Layer) -> State {
        State { clients: self.clients.push(client), ..self }
    }

    /// The state after the client with the number `id` has left.
    pub open spec fn without(self, id: u64) -> State {
        State { clients: self.clients.filter(|c: Layer| c.id != id), ..self }
    }

    /// The state after the client with the number `id` has declared `rect` as its region.
    pub open spec fn redeclared(self, id: u64, rect: Option<Rect>) -> State {
        State {
            clients: self.clients.map_values(
                |c: Layer|
                    if c.id == id {
                        Layer { rect, ..c }
                    } else {
                        c
                    },
            ),
            ..self
        }
    }

    /// The state after tmux was found to show the session `active`.
    pub open spec fn showing(self, active: Option<Seq<char>>) -> State {
        State { active, ..self }
    }
}

/// Finds the scene in force.
pub fn current_scene(reg: &[Client], config: &Config) -> (scene: String)
    ensures
        scene@ == scene_of(clients_in(reg@), config@),
{
    let names: Vec<&str> = config.scene_names();
    let ghost clients = clients_in(reg@);
    let mut i: usize = reg.len();
    assert(clients.take(i as int) =~= clients);
    while i > 0
        invariant
            i <= reg@.len(),
            clients == clients_in(reg@),
            scene_of(clients, config@) == scene_of(clients.take(i as int), config@),
            forall|name: Seq<char>| #[trigger]
                text::slices(names@).contains(name) <==> scenes::is_scene(config@, name),
        decreases i,
    {
        let ghost upto = clients.take(i as int);
        i -= 1;
        let name: &str = reg[i].name.as_str();
        assert(upto.last().name == name@);
        assert(upto.drop_last() =~= clients.take(i as int));
        if text::includes(&names, name) {
            return name.to_owned();
        }
    }
    "default".to_owned()
}

/// Everything that is to be sent out after a change.
pub struct Broadcast {
    /// The scene in force.
    pub scene: String,
    /// One message for each client, in the order of the clients.
    pub messages: Vec<Visible>,
    /// Whether the tmux status line is to be shown.
    pub status_on: bool,
}

/// What [`Shared::greet`] made of a hello.
pub enum Greeting {
    /// It was a status query: answer it and close the connection.
    Status(StatusReply),
    /// The client is registered. If it is bound to a session, the active session is to be
    /// found out before the change is sent out.
    Joined { bound: bool },
}

/// Where a connection stands.
#[derive(Debug, Clone, Copy, PartialEq, Eq, Structural)]
pub enum Phase {
    /// The hello has not come yet.
    Opening,
    /// The client is registered.
    Registered,
    /// The connection is to be closed.
    Closed,
}

/// What happens on a connection.
pub enum Event {
    /// The client said hello.
    Hello(Hello),
    /// The client declared its region anew, or withdrew it.
    Update(RectUpdate),
    /// The client sent a line that is not the message expected at this point.
    Unreadable,
    /// The client disconnected, or can no longer be read from.
    Ended,
}

/// What is to be done in answer to an [`Event`].
pub enum Action {
    /// Nothing.
    Rest,
    /// Send this reply to the client.
    Reply(StatusReply),
    /// Send out what [`Shared::recompute`] gives; before that, if `find_session` is set,
    /// find out the session tmux shows and let [`Shared::observe`] know.
    Publish { find_session: bool },
}

/// The contents of an [`Action`].
pub enum Effect {
    Rest,
    Reply(Status),
    Publish { find_session: bool },
}

impl View for Action {
    type V = Effect;

    open spec fn view(&self) -> Effect {
        match *self {
            Action::Rest => Effect::Rest,
            Action::Reply(reply) => Effect::Reply(reply@),
            Action::Publish { find_session } => Effect::Publish { find_session },
        }
    }
}

/// The outcome of an [`Event`]: the new state, where the connection stands, and what is to
/// be done.
pub struct Transition {
    pub state: State,
    pub phase: Phase,
    pub effect: Effect,
}

/// What an event on the connection with the number `id` leads to.
///
/// The first line has to be a hello: anything else ends the connection. A status query is
/// answered and ends it too; any other hello registers the client. From then on the client
/// may declare its region anew, lines that say nothing are passed over, and the end of the
/// connection removes the client. Every change is sent out.
pub open spec fn transition(
    state: State,
    table: Map<Seq<char>, Seq<Seq<char>>>,
    id: u64,
    phase: Phase,
    event: Event,
) -> Transition {
    match (phase, event) {
        (Phase::Opening, Event::Hello(hello)) => if hello.hello@ == STATUS_QUERY_NAME@ {
            Transition { state, phase: Phase::Closed, effect: Effect::Reply(state.status(table)) }
        } else {
            Transition {
                state: state.with(newcomer(id, hello)),
                phase: Phase::Registered,
                effect: Effect::Publish { find_session: hello.session is Some },
            }
        },
        (Phase::Registered, Event::Update(update)) => Transition {
            state: state.redeclared(id, update.rect),
            phase: Phase::Registered,
            effect: Effect::Publish { find_session: false },
        },
        (Phase::Registered, Event::Ended) => Transition {
            state: state.without(id),
            phase: Phase::Closed,
            effect: Effect::Publish { find_session: false },
        },
        (Phase::Registered, _) => Transition {
            state,
            phase: Phase::Registered,
            effect: Effect::Rest,
        },
        _ => Transition { state, phase: Phase::Closed, effect: Effect::Rest },
    }
}

/// Describes a client for a status reply.
fn describe(client: &Client) -> (r: String)
    ensures
        r@ == description(client@),
{
    let mut out: String = client.name.clone();
    if let Some(session) = &client.session {
        out.append(" (session ");
        out.append(session.as_str());
        out.append(")");
    }
    if let Some(r) = &client.rect {
        out.append(" [");
        text::append_decimal(&mut out, r.w);
        out.append("x");
        text::append_decimal(&mut out, r.h);
        out.append("+");
        text::append_decimal(&mut out, r.x);
        out.append("+");
        text::append_decimal(&mut out, r.y);
        out.append("]");
    }
    assert(out@ =~= description(client@));
    out
}

/// A copy of an optional string.
fn copy_text(s: &Option<String>) -> (r: Option<String>)
    ensures
        text::string_of(r) == text::string_of(*s),
{
    match s {
        Some(t) => Some(t.clone()),
        None => None,
    }
}

impl Shared {
    /// The state of a server that has just started: no clients, no known session.
    pub fn new() -> (shared: Shared)
        ensures
            shared@ == (State { clients: Seq::empty(), active: None }),
    {
        let shared: Shared = Shared { clients: Vec::new(), active_session: None };
        assert(shared@.clients =~= Seq::empty());
        shared
    }

    /// Computes what is to be sent out in the present state: to each client whether it is
    /// shown, and to tmux whether it is to show its status line.
    pub fn recompute(&self, config: &Config) -> (b: Broadcast)
        ensures
            b.scene@ == self@.scene(config@),
            b.messages@.len() == self@.clients.len(),
            forall|i: int|
                0 <= i < self@.clients.len() ==> (#[trigger] b.messages@[i])@ == self@.notice(
                    config@,
                    i,
                ),
            b.status_on == self@.status_on(config@),
    {
        let scene: String = current_scene(self.clients.as_slice(), config);
        let layers: &[String] = config.layers_for(scene.as_str());
        let n: usize = self.clients.len();
        let mut infos: Vec<LayerInfo> = Vec::new();
        let mut i: usize = 0;
        while i < n
            invariant
                i <= n,
                n == self.clients@.len(),
                infos@.len() == i,
                forall|k: int| 0 <= k < i ==> (#[trigger] infos@[k])@ == self.clients@[k]@,
            decreases n - i,
        {
            let client: &Client = &self.clients[i];
            let session: Option<&str> = match &client.session {
                Some(s) => Some(s.as_str()),
                None => None,
            };
            let info: LayerInfo = LayerInfo {
                id: client.id,
                name: client.name.as_str(),
                session,
                rect: client.rect,
            };
            infos.push(info);
            i += 1;
        }
        let active: Option<&str> = match &self.active_session {
            Some(s) => Some(s.as_str()),
            None => None,
        };
        let ghost stage = self@.stage(config@);
        assert(visibility::layers_in(infos@) =~= self@.clients);
        let mut messages: Vec<Visible> = visibility::compute_visibility(
            infos.as_slice(),
            layers,
            active,
        );
        let mut k: usize = 0;
        while k < n
            invariant
                k <= n,
                n == messages@.len(),
                stage == self@.stage(config@),
                scene@ == self@.scene(config@),
                forall|j: int| 0 <= j < k ==> (#[trigger] messages@[j])@ == self@.notice(config@, j),
                forall|j: int| k <= j < n ==> (#[trigger] messages@[j])@ == stage.notice(j),
            decreases n - k,
        {
            messages[k].scene = Some(scene.clone());
            assert(messages@[k as int]@ =~= self@.notice(config@, k as int));
            k += 1;
        }
        proof {
            text::position_is_first(text::texts(layers@), "status-bar"@);
        }
        let status_on: bool = text::find(layers, "status-bar") < layers.len();
        Broadcast { scene, messages, status_on }
    }

    /// The answer to a status query.
    pub fn status(&self, config: &Config) -> (reply: StatusReply)
        ensures
            reply@ == self@.status(config@),
    {
        let scene: String = current_scene(self.clients.as_slice(), config);
        let n: usize = self.clients.len();
        let mut clients: Vec<String> = Vec::new();
        let mut i: usize = 0;
        while i < n
            invariant
                i <= n,
                n == self.clients@.len(),
                clients@.len() == i,
                forall|k: int|
                    0 <= k < i ==> (#[trigger] clients@[k])@ == description(self.clients@[k]@),
            decreases n - i,
        {
            clients.push(describe(&self.clients[i]));
            i += 1;
        }
        let reply: StatusReply = StatusReply {
            scene,
            clients,
            active_session: copy_text(&self.active_session),
        };
        assert(reply@.clients =~= self@.status(config@).clients);
        reply
    }

    /// Handles the first line of the client with the number `id`: a status query is
    /// answered and changes nothing, any other client is registered.
    pub fn greet(&mut self, config: &Config, id: u64, hello: Hello) -> (r: Greeting)
        ensures
            r is Status <==> hello.hello@ == STATUS_QUERY_NAME@,
            match r {
                Greeting::Status(reply) => final(self)@ == old(self)@ && reply@ == old(
                    self,
                )@.status(config@),
                Greeting::Joined { bound } => final(self)@ == old(self)@.with(newcomer(id, hello))
                    && bound == (hello.session is Some),
            },
    {
        if text::same(hello.hello.as_str(), STATUS_QUERY_NAME) {
            return Greeting::Status(self.status(config));
        }
        let ghost before = self@;
        let bound: bool = hello.session.is_some();
        let ghost client = newcomer(id, hello);
        self.clients.push(
            Client { id, name: hello.hello, session: hello.session, rect: hello.rect },
        );
        assert(self@ =~= before.with(client)) by {
            assert(self@.clients =~= before.clients.push(client));
        }
        Greeting::Joined { bound }
    }

    /// Handles a later line of the client with the number `id`: the region it declares
    /// replaces the one it declared before.
    pub fn redeclare(&mut self, id: u64, update: RectUpdate)
        ensures
            final(self)@ == old(self)@.redeclared(id, update.rect),
    {
        let ghost before = self.clients@;
        let ghost state = self@;
        let n: usize = self.clients.len();
        let mut i: usize = 0;
        while i < n
            invariant
                i <= n,
                n == before.len(),
                n == self.clients@.len(),
                self@.active == state.active,
                forall|k: int|
                    0 <= k < i ==> (#[trigger] self.clients@[k])@ == if before[k].id == id {
                        Layer { rect: update.rect, ..before[k]@ }
                    } else {
                        before[k]@
                    },
                forall|k: int| i <= k < n ==> #[trigger] self.clients@[k] == before[k],
            decreases n - i,
        {
            if self.clients[i].id == id {
                self.clients[i].rect = update.rect;
            }
            i += 1;
        }
        assert(self@ =~= state.redeclared(id, update.rect)) by {
            assert(self@.clients =~= state.redeclared(id, update.rect).clients);
        }
    }

    /// Handles the end of the connection of the client with the number `id`.
    pub fn leave(&mut self, id: u64)
        ensures
            final(self)@ == old(self)@.without(id),
    {
        let ghost all = self@.clients;
        let ghost state = self@;
        let ghost stays = |c: Layer| c.id != id;
        let mut i: usize = self.clients.len();
        assert(all.skip(i as int).filter(stays) =~= Seq::empty());
        while i > 0
            invariant
                i <= self.clients@.len(),
                i <= all.len(),
                self@.active == state.active,
                stays == (|c: Layer| c.id != id),
                clients_in(self.clients@) == all.take(i as int) + all.skip(i as int).filter(stays),
            decreases i,
        {
            let ghost rest = all.skip(i as int).filter(stays);
            let ghost front = all.take(i as int);
            i -= 1;
            proof {
                assert(clients_in(self.clients@)[i as int] == front[i as int]);
                assert(all.take(i as int) =~= front.drop_last());
                filter_first(all.skip(i as int), stays);
                assert(all.skip(i as int).drop_first() =~= all.skip(i + 1));
            }
            if self.clients[i].id == id {
                let ghost before = clients_in(self.clients@);
                self.clients.remove(i);
                assert(clients_in(self.clients@) =~= before.remove(i as int));
            }
            assert(clients_in(self.clients@) =~= all.take(i as int) + all.skip(i as int).filter(
                stays,
            ));
        }
        assert(all.take(0) + all.skip(0).filter(stays) =~= all.filter(stays)) by {
            assert(all.skip(0) =~= all);
        }
        assert(self@ =~= state.without(id));
    }

    /// Handles an event on the connection with the number `id`: says where the connection
    /// stands then, and what is to be done.
    pub fn handle(&mut self, config: &Config, id: u64, phase: Phase, event: Event) -> (r: (
        Phase,
        Action,
    ))
        ensures
            ({
                let t = transition(old(self)@, config@, id, phase, event);
                &&& final(self)@ == t.state
                &&& r.0 == t.phase
                &&& r.1@ == t.effect
            }),
    {
        match (phase, event) {
            (Phase::Opening, Event::Hello(hello)) => match self.greet(config, id, hello) {
                Greeting::Status(reply) => (Phase::Closed, Action::Reply(reply)),
                Greeting::Joined { bound } => (
                    Phase::Registered,
                    Action::Publish { find_session: bound },
                ),
            },
            (Phase::Registered, Event::Update(update)) => {
                self.redeclare(id, update);
                (Phase::Registered, Action::Publish { find_session: false })
            },
            (Phase::Registered, Event::Ended) => {
                self.leave(id);
                (Phase::Closed, Action::Publish { find_session: false })
            },
            (Phase::Registered, _) => (Phase::Registered, Action::Rest),
            _ => (Phase::Closed, Action::Rest),
        }
    }

    /// Whether the session tmux shows has to be found out, because some client is bound to
    /// one. Where it does not, the session known so far is forgotten, so that no later
    /// client is judged by it.
    pub fn needs_session(&mut self) -> (r: bool)
        ensures
            r == old(self)@.bound(),
            final(self)@ == if r {
                old(self)@
            } else {
                old(self)@.showing(None)
            },
    {
        let n: usize = self.clients.len();
        let mut i: usize = 0;
        while i < n
            invariant
                i <= n,
                n == self.clients@.len(),
                forall|k: int| 0 <= k < i ==> (#[trigger] self@.clients[k]).session is None,
                *self == *old(self),
            decreases n - i,
        {
            if self.clients[i].session.is_some() {
                assert(self@.clients[i as int].session is Some);
                return true;
            }
            i += 1;
        }
        self.active_session = None;
        false
    }

    /// Takes note of the session tmux shows. Returns whether it is another one than
    /// before, so that the change has to be sent out.
    pub fn observe(&mut self, now: Option<String>) -> (changed: bool)
        ensures
            final(self)@ == old(self)@.showing(text::string_of(now)),
            changed == (old(self)@.active != text::string_of(now)),
    {
        let unchanged: bool = match (&self.active_session, &now) {
            (Some(a), Some(b)) => text::same(a.as_str(), b.as_str()),
            (None, None) => true,
            _ => false,
        };
        self.active_session = now;
        !unchanged
    }
}

/// Filtering a list begins with its first item.
proof fn filter_first<A>(list: Seq<A>, keep: spec_fn(A) -> bool)
    requires
        list.len() > 0,
    ensures
        list.filter(keep) == (if keep(list[0]) {
            seq![list[0]] + list.drop_first().filter(keep)
        } else {
            list.drop_first().filter(keep)
        }),
    decreases list.len(),
{
    reveal_with_fuel(Seq::filter, 2);
    if list.len() == 1 {
        assert(list.drop_last() =~= Seq::empty());
        assert(list.drop_first() =~= Seq::empty());
        assert(list.filter(keep) =~= if keep(list[0]) {
            seq![list[0]]
        } else {
            Seq::empty()
        });
    } else {
        filter_first(list.drop_last(), keep);
        assert(list.drop_last().drop_first() =~= list.drop_first().drop_last());
        assert(list.drop_first().last() == list.last());
        assert(list.filter(keep) =~= (if keep(list[0]) {
            seq![list[0]] + list.drop_first().filter(keep)
        } else {
            list.drop_first().filter(keep)
        }));
    }
}

/// The scene in force is the one named by the last client that names one; where no client
/// names one it is `"default"`.
pub proof fn last_scene_wins(state: State, table: Map<Seq<char>, Seq<Seq<char>>>, i: int)
    ensures
        0 <= i < state.clients.len() && scenes::is_scene(table, state.clients[i].name) && (forall|
            j: int,
        |
            i < j < state.clients.len() ==> !scenes::is_scene(
                table,
                (#[trigger] state.clients[j]).name,
            )) ==> state.scene(table) == state.clients[i].name,
        (forall|j: int|
            0 <= j < state.clients.len() ==> !scenes::is_scene(
                table,
                (#[trigger] state.clients[j]).name,
            )) ==> state.scene(table) == "default"@,
    decreases state.clients.len(),
{
    if state.clients.len() > 0 {
        let last = state.clients.len() - 1;
        assert(state.clients.last() == state.clients[last]);
        if !scenes::is_scene(table, state.clients[last].name) {
            let fewer = State { clients: state.clients.drop_last(), ..state };
            last_scene_wins(fewer, table, i);
            assert(forall|j: int| 0 <= j < last ==> fewer.clients[j] == state.clients[j]);
        }
    }
}

/// A client that names a scene puts it in force by connecting; any other client leaves
/// the scene as it is.
pub proof fn connecting_sets_scene(
    state: State,
    table: Map<Seq<char>, Seq<Seq<char>>>,
    client: Layer,
)
    ensures
        state.with(client).scene(table) == if scenes::is_scene(table, client.name) {
            client.name
        } else {
            state.scene(table)
        },
{
    assert(state.with(client).clients.drop_last() =~= state.clients);
}

proof fn filter_keeps_all(list: Seq<Layer>, id: u64)
    requires
        forall|i: int| 0 <= i < list.len() ==> (#[trigger] list[i]).id != id,
    ensures
        list.filter(|c: Layer| c.id != id) == list,
    decreases list.len(),
{
    reveal_with_fuel(Seq::filter, 1);
    if list.len() > 0 {
        assert(forall|i: int| 0 <= i < list.len() - 1 ==> list.drop_last()[i] == list[i]);
        filter_keeps_all(list.drop_last(), id);
        assert(list[list.len() - 1].id != id);
        assert(list.drop_last().push(list.last()) =~= list);
    } else {
        assert(list.filter(|c: Layer| c.id != id) =~= list);
    }
}

/// Disconnecting undoes connecting: whatever other clients came before and after it, once
/// a client has left, the state is what it would be had the client never been there.
pub proof fn leaving_undoes_joining(state: State, client: Layer, later: Seq<Layer>)
    requires
        !state.has(client.id),
        forall|i: int| 0 <= i < later.len() ==> (#[trigger] later[i]).id != client.id,
    ensures
        (State { clients: state.clients.push(client) + later, ..state }).without(client.id) == (
        State { clients: state.clients + later, ..state }),
    decreases later.len(),
{
    let stays = |c: Layer| c.id != client.id;
    let with = state.clients.push(client);
    assert forall|i: int| 0 <= i < state.clients.len() implies (#[trigger] state.clients[i]).id
        != client.id by {
        if state.clients[i].id == client.id {
            assert(state.has(client.id));
        }
    }
    filter_keeps_all(state.clients, client.id);
    filter_keeps_all(later, client.id);
    reveal_with_fuel(Seq::filter, 1);
    assert(with.drop_last() =~= state.clients);
    assert(with.filter(stays) == state.clients.filter(stays));
    Seq::filter_distributes_over_add(with, later, stays);
}

/// Connecting and disconnecting at once leaves no trace.
pub proof fn brief_visit_changes_nothing(state: State, client: Layer)
    requires
        !state.has(client.id),
    ensures
        state.with(client).without(client.id) == state,
{
    leaving_undoes_joining(state, client, Seq::empty());
    assert(state.clients.push(client) + Seq::<Layer>::empty() =~= state.with(client).clients);
    assert(state.clients + Seq::<Layer>::empty() =~= state.clients);
}

/// A client that has left is no longer connected.
pub proof fn leaving_removes(state: State, id: u64)
    ensures
        !state.without(id).has(id),
{
    let stays = |c: Layer| c.id != id;
    assert forall|i: int| 0 <= i < state.without(id).clients.len() implies #[trigger] state.without(
        id,
    ).clients[i].id != id by {
        state.clients.lemma_filter_pred(stays, i);
    }
}

/// The numbers of the clients stay distinct: when a client with a number not in use is
/// registered, when a client leaves, and when one declares its region.
pub proof fn numbers_stay_distinct(state: State, client: Layer, rect: Option<Rect>)
    requires
        state.numbered(),
    ensures
        !state.has(client.id) ==> state.with(client).numbered(),
        state.without(client.id).numbered(),
        state.redeclared(client.id, rect).numbered(),
{
    let with = state.with(client);
    if !state.has(client.id) {
        assert forall|i: int, j: int| 0 <= i < j < with.clients.len() implies #[trigger] with.clients[i].id
            != #[trigger] with.clients[j].id by {
            assert(with.clients[i] == state.clients[i]);
            if j < state.clients.len() {
                assert(with.clients[j] == state.clients[j]);
            } else if state.clients[i].id == client.id {
                assert(state.has(client.id));
            }
        }
    }
    filter_keeps_distinct(state.clients, client.id);
}

proof fn filter_keeps_distinct(list: Seq<Layer>, id: u64)
    requires
        forall|i: int, j: int|
            0 <= i < j < list.len() ==> #[trigger] list[i].id != #[trigger] list[j].id,
    ensures
        ({
            let kept = list.filter(|c: Layer| c.id != id);
            forall|i: int, j: int|
                0 <= i < j < kept.len() ==> #[trigger] kept[i].id != #[trigger] kept[j].id
        }),
    decreases list.len(),
{
    let stays = |c: Layer| c.id != id;
    reveal_with_fuel(Seq::filter, 1);
    if list.len() > 0 {
        let rest = list.drop_last();
        let kept = rest.filter(stays);
        assert(forall|i: int| 0 <= i < rest.len() ==> rest[i] == list[i]);
        filter_keeps_distinct(rest, id);
        assert forall|i: int| 0 <= i < kept.len() implies #[trigger] kept[i].id != list.last().id by {
            assert(kept.contains(kept[i]));
            rest.lemma_filter_contains_rev(stays, kept[i]);
            let j = choose|j: int| 0 <= j < rest.len() && rest[j] == kept[i];
            assert(list[j].id != list[list.len() - 1].id);
        }
    }
}

/// Declaring a region changes neither the scene nor who is shown, and leaves every other
/// client as it is.
pub proof fn redeclaring_moves_only_regions(
    state: State,
    table: Map<Seq<char>, Seq<Seq<char>>>,
    id: u64,
    rect: Option<Rect>,
    i: int,
)
    requires
        0 <= i < state.clients.len(),
    ensures
        state.redeclared(id, rect).scene(table) == state.scene(table),
        state.redeclared(id, rect).notice(table, i).visible == state.notice(table, i).visible,
        state.redeclared(id, rect).notice(table, i).reason == state.notice(table, i).reason,
        state.clients[i].id != id ==> state.redeclared(id, rect).clients[i] == state.clients[i],
        state.clients[i].id == id ==> state.redeclared(id, rect).clients[i].rect == rect,
{
    scene_ignores_regions(state.clients, id, rect, table);
}

proof fn scene_ignores_regions(
    clients: Seq<Layer>,
    id: u64,
    rect: Option<Rect>,
    table: Map<Seq<char>, Seq<Seq<char>>>,
)
    ensures
        scene_of(
            clients.map_values(
                |c: Layer|
                    if c.id == id {
                        Layer { rect, ..c }
                    } else {
                        c
                    },
            ),
            table,
        ) == scene_of(clients, table),
    decreases clients.len(),
{
    let change = |c: Layer|
        if c.id == id {
            Layer { rect, ..c }
        } else {
            c
        };
    if clients.len() > 0 {
        scene_ignores_regions(clients.drop_last(), id, rect, table);
        assert(clients.map_values(change).drop_last() =~= clients.drop_last().map_values(change));
    }
}

/// While no client is bound to a session, what the clients are told does not depend on the
/// session tmux shows, so that it may be forgotten.
pub proof fn session_matters_only_when_bound(
    state: State,
    table: Map<Seq<char>, Seq<Seq<char>>>,
    active: Option<Seq<char>>,
    i: int,
)
    requires
        0 <= i < state.clients.len(),
        !state.bound(),
    ensures
        state.showing(active).notice(table, i) == state.notice(table, i),
{
    let stage = state.stage(table);
    assert forall|j: int| stage.has(j) implies (#[trigger] stage.clients[j]).session is None by {
        if stage.clients[j].session is Some {
            assert(state.clients[j].session is Some);
            assert(state.bound());
        }
    }
    visibility::unbound_clients_ignore_session(stage, active, i);
}

/// The regions a client declared are forgotten when it leaves.
pub proof fn regions_are_forgotten(state: State, id: u64, rect: Option<Rect>)
    ensures
        state.redeclared(id, rect).without(id) == state.without(id),
{
    region_does_not_keep(state.clients, id, rect);
}

proof fn region_does_not_keep(clients: Seq<Layer>, id: u64, rect: Option<Rect>)
    ensures
        clients.map_values(
            |c: Layer|
                if c.id == id {
                    Layer { rect, ..c }
                } else {
                    c
                },
        ).filter(|c: Layer| c.id != id) == clients.filter(|c: Layer| c.id != id),
    decreases clients.len(),
{
    let change = |c: Layer|
        if c.id == id {
            Layer { rect, ..c }
        } else {
            c
        };
    let stays = |c: Layer| c.id != id;
    reveal_with_fuel(Seq::filter, 1);
    if clients.len() > 0 {
        region_does_not_keep(clients.drop_last(), id, rect);
        assert(clients.map_values(change).drop_last() =~= clients.drop_last().map_values(change));
    } else {
        assert(clients.map_values(change) =~= clients);
    }
}

/// The state after a client that was registered has sent what it sent.
pub open spec fn after_all(
    state: State,
    table: Map<Seq<char>, Seq<Seq<char>>>,
    id: u64,
    events: Seq<Event>,
) -> State
    decreases events.len(),
{
    if events.len() == 0 {
        state
    } else {
        transition(
            after_all(state, table, id, events.drop_last()),
            table,
            id,
            Phase::Registered,
            events.last(),
        ).state
    }
}

/// Whatever a client sends between its hello and its end, once its connection has ended
/// the state is what it was before the hello.
pub proof fn connection_leaves_no_trace(
    state: State,
    table: Map<Seq<char>, Seq<Seq<char>>>,
    id: u64,
    hello: Hello,
    events: Seq<Event>,
)
    requires
        !state.has(id),
        hello.hello@ != STATUS_QUERY_NAME@,
        forall|i: int| 0 <= i < events.len() ==> #[trigger] events[i] !is Ended,
    ensures
        ({
            let joined = transition(state, table, id, Phase::Opening, Event::Hello(hello));
            let busy = after_all(joined.state, table, id, events);
            let ended = transition(busy, table, id, Phase::Registered, Event::Ended);
            &&& joined.phase == Phase::Registered
            &&& ended.phase == Phase::Closed
            &&& ended.state == state
        }),
{
    let joined = state.with(newcomer(id, hello));
    brief_visit_changes_nothing(state, newcomer(id, hello));
    events_only_redeclare(joined, table, id, events);
}

proof fn events_only_redeclare(
    state: State,
    table: Map<Seq<char>, Seq<Seq<char>>>,
    id: u64,
    events: Seq<Event>,
)
    requires
        forall|i: int| 0 <= i < events.len() ==> #[trigger] events[i] !is Ended,
    ensures
        after_all(state, table, id, events).without(id) == state.without(id),
    decreases events.len(),
{
    if events.len() > 0 {
        let before = after_all(state, table, id, events.drop_last());
        assert forall|i: int| 0 <= i < events.drop_last().len() implies #[trigger] events.drop_last()[i]
            !is Ended by {
            assert(events.drop_last()[i] == events[i]);
        }
        events_only_redeclare(state, table, id, events.drop_last());
        assert(events[events.len() - 1] !is Ended);
        if let Event::Update(update) = events.last() {
            regions_are_forgotten(before, id, update.rect);
        }
    }
}

/// A status query changes nothing, and nor does a connection that does not open with a
/// hello.
pub proof fn only_hellos_register(
    state: State,
    table: Map<Seq<char>, Seq<Seq<char>>>,
    id: u64,
    event: Event,
)
    requires
        event matches Event::Hello(hello) ==> hello.hello@ == STATUS_QUERY_NAME@,
    ensures
        transition(state, table, id, Phase::Opening, event).state == state,
        transition(state, table, id, Phase::Opening, event).phase == Phase::Closed,
{
}

/// Every change is sent out: an event that does not lead to a broadcast leaves the state as
/// it is.
pub proof fn every_change_is_sent_out(
    state: State,
    table: Map<Seq<char>, Seq<Seq<char>>>,
    id: u64,
    phase: Phase,
    event: Event,
)
    ensures
        transition(state, table, id, phase, event).effect is Publish || transition(
            state,
            table,
            id,
            phase,
            event,
        ).state == state,
{
}

/// A client holds what its fields hold, and so does the server's state.
pub proof fn state_holds_the_fields(shared: Shared, i: int)
    ensures
        shared@.clients.len() == shared.clients@.len(),
        0 <= i < shared.clients@.len() ==> {
            let client = shared.clients@[i];
            &&& shared@.clients[i] == client@
            &&& client@.id == client.id
            &&& client@.name == client.name@
            &&& client@.session is Some <==> client.session is Some
            &&& client.session is Some ==> client@.session->0 == client.session->0@
            &&& client@.rect == client.rect
        },
        shared@.active is Some <==> shared.active_session is Some,
        shared.active_session is Some ==> shared@.active->0 == shared.active_session->0@,
{
}

/// A hello registers a client with the name, the session and the region that it tells.
pub proof fn newcomer_is_what_the_hello_says(id: u64, hello: Hello)
    ensures
        newcomer(id, hello).id == id,
        newcomer(id, hello).name == hello.hello@,
        newcomer(id, hello).session is Some <==> hello.session is Some,
        hello.session is Some ==> newcomer(id, hello).session->0 == hello.session->0@,
        newcomer(id, hello).rect == hello.rect,
{
}

/// The contents of an action.
pub proof fn effect_holds_the_reply(reply: StatusReply, find_session: bool)
    ensures
        Action::Rest@ == Effect::Rest,
        Action::Reply(reply)@ == Effect::Reply(reply@),
        (Action::Publish { find_session })@ == (Effect::Publish { find_session }),
{
}

/// The scene in force is the name of the last client that is called like a known scene other
/// than `"default"`; where no client is, it is `"default"`.
pub proof fn last_client_called_like_a_scene_decides(
    state: State,
    table: Map<Seq<char>, Seq<Seq<char>>>,
    i: int,
)
    ensures
        0 <= i < state.clients.len() && table.contains_key(state.clients[i].name)
            && state.clients[i].name != "default"@ && (forall|j: int|
            i < j < state.clients.len() ==> !table.contains_key((#[trigger] state.clients[j]).name)
                || state.clients[j].name == "default"@) ==> state.scene(table)
            == state.clients[i].name,
        (forall|j: int|
            0 <= j < state.clients.len() ==> !table.contains_key((#[trigger] state.clients[j]).name)
                || state.clients[j].name == "default"@) ==> state.scene(table) == "default"@,
{
    last_scene_wins(state, table, i);
    assert(forall|j: int|
        0 <= j < state.clients.len() ==> scenes::is_scene(table, (#[trigger] state.clients[j]).name)
            == (table.contains_key(state.clients[j].name) && state.clients[j].name
            != "default"@));
}

/// Whatever scene is in force, a client bound to a session other than the one known to be
/// active is hidden, and it is told the reason `"session"` exactly if its name is one of the
/// layers of that scene.
pub proof fn other_session_hides_in_every_scene(
    state: State,
    table: Map<Seq<char>, Seq<Seq<char>>>,
    layers: Seq<Seq<char>>,
    i: int,
    session: Seq<char>,
    active: Seq<char>,
)
    requires
        table.contains_key(state.scene(table)) ==> layers == table[state.scene(table)],
        !table.contains_key(state.scene(table)) ==> layers == table["default"@],
        0 <= i < state.clients.len(),
        state.clients[i].session == Some(session),
        state.active == Some(active),
        session != active,
    ensures
        ({
            let listed = exists|k: int|
                0 <= k < layers.len() && #[trigger] layers[k] == state.clients[i].name;
            &&& !state.notice(table, i).visible
            &&& listed ==> state.notice(table, i).reason == Some("session"@)
            &&& !listed ==> state.notice(table, i).reason is None
            &&& state.notice(table, i).clip.len() == 0
            &&& state.notice(table, i).scene == Some(state.scene(table))
        }),
{
    let stage = state.stage(table);
    visibility::name_and_session_decide_who_is_shown(stage, i);
    visibility::hidden_client_takes_nothing(stage, i);
}

/// Whatever scene is in force, a client that is bound to no session, or to the active one, or
/// while the active one is not known, is shown exactly if its name is one of the layers of
/// that scene, and it is told no reason.
pub proof fn scene_decides_otherwise(
    state: State,
    table: Map<Seq<char>, Seq<Seq<char>>>,
    layers: Seq<Seq<char>>,
    i: int,
)
    requires
        table.contains_key(state.scene(table)) ==> layers == table[state.scene(table)],
        !table.contains_key(state.scene(table)) ==> layers == table["default"@],
        0 <= i < state.clients.len(),
        state.clients[i].session is None || state.active is None || state.clients[i].session
            == state.active,
    ensures
        state.notice(table, i).visible <==> exists|k: int|
            0 <= k < layers.len() && #[trigger] layers[k] == state.clients[i].name,
        state.notice(table, i).reason is None,
        state.notice(table, i).scene == Some(state.scene(table)),
{
    visibility::name_and_session_decide_who_is_shown(state.stage(table), i);
}

/// The areas a client must not draw in are those that the arbitration between all the
/// connected clients gives, under the layers of the scene in force and the active session.
pub proof fn areas_come_from_the_arbitration(
    state: State,
    table: Map<Seq<char>, Seq<Seq<char>>>,
    i: int,
)
    ensures
        state.notice(table, i).clip == (Stage {
            clients: state.clients,
            layers: if table.contains_key(state.scene(table)) {
                table[state.scene(table)]
            } else {
                table["default"@]
            },
            active: state.active,
        }).notice(i).clip,
{
}

/// The status line is shown exactly if `"status-bar"` stands somewhere among the layers of
/// the scene in force.
pub proof fn status_line_needs_its_layer(
    state: State,
    table: Map<Seq<char>, Seq<Seq<char>>>,
    layers: Seq<Seq<char>>,
)
    requires
        table.contains_key(state.scene(table)) ==> layers == table[state.scene(table)],
        !table.contains_key(state.scene(table)) ==> layers == table["default"@],
    ensures
        state.status_on(table) <==> exists|k: int|
            0 <= k < layers.len() && #[trigger] layers[k] == "status-bar"@,
{
    if layers.contains("status-bar"@) {
        let k = choose|k: int| 0 <= k < layers.len() && layers[k] == "status-bar"@;
        assert(layers[k] == "status-bar"@);
    }
}

/// Two tables with the same scenes put the same scene in force.
proof fn scene_depends_on_names(
    clients: Seq<Layer>,
    table: Map<Seq<char>, Seq<Seq<char>>>,
    other: Map<Seq<char>, Seq<Seq<char>>>,
)
    requires
        forall|name: Seq<char>| table.contains_key(name) == #[trigger] other.contains_key(name),
    ensures
        scene_of(clients, table) == scene_of(clients, other),
    decreases clients.len(),
{
    if clients.len() > 0 {
        assert(table.contains_key(clients.last().name) == other.contains_key(clients.last().name));
        scene_depends_on_names(clients.drop_last(), table, other);
    }
}

/// Listing the layers of the scenes in another order, or repeatedly, changes neither the
/// scene in force nor whether the status line is shown, nor who is shown and for what reason
/// not.
pub proof fn order_of_layers_hides_nobody(
    state: State,
    table: Map<Seq<char>, Seq<Seq<char>>>,
    other: Map<Seq<char>, Seq<Seq<char>>>,
    i: int,
)
    requires
        forall|name: Seq<char>| table.contains_key(name) == #[trigger] other.contains_key(name),
        table.contains_key("default"@),
        forall|name: Seq<char>, layer: Seq<char>|
            table.contains_key(name) ==> table[name].contains(layer) == #[trigger] other[name].contains(
                layer,
            ),
        0 <= i < state.clients.len(),
    ensures
        state.scene(other) == state.scene(table),
        state.status_on(other) == state.status_on(table),
        state.notice(other, i).visible == state.notice(table, i).visible,
        state.notice(other, i).reason == state.notice(table, i).reason,
{
    scene_depends_on_names(state.clients, table, other);
    let scene = state.scene(table);
    assert(table.contains_key(scene) == other.contains_key(scene));
    let from = if table.contains_key(scene) { scene } else { "default"@ };
    assert(other[from].contains("status-bar"@) == table[from].contains("status-bar"@));
    let name = state.clients[i].name;
    assert(other[from].contains(name) == table[from].contains(name));
}

/// A status reply tells the scene in force, the active session, and one line on each client,
/// in the order of the clients.
pub proof fn status_tells_of_every_client(
    state: State,
    table: Map<Seq<char>, Seq<Seq<char>>>,
    i: int,
)
    ensures
        state.status(table).scene == state.scene(table),
        state.status(table).active_session == state.active,
        state.status(table).clients.len() == state.clients.len(),
        0 <= i < state.clients.len() ==> state.status(table).clients[i] == description(
            state.clients[i],
        ),
{
}

/// A client is described by its name, the session it is bound to, if any, and the width,
/// height and place of the region it declared, if any.
pub proof fn description_tells_name_session_and_region(client: Layer)
    ensures
        client.session is None && client.rect is None ==> description(client) == client.name,
        client.session is Some && client.rect is None ==> description(client) == client.name
            + " (session "@ + client.session->0 + ")"@,
        client.session is None && client.rect is Some ==> description(client) == client.name
            + " ["@ + text::decimal(client.rect->0.w as int) + "x"@ + text::decimal(
            client.rect->0.h as int,
        ) + "+"@ + text::decimal(client.rect->0.x as int) + "+"@ + text::decimal(
            client.rect->0.y as int,
        ) + "]"@,
        client.session is Some && client.rect is Some ==> description(client) == client.name
            + " (session "@ + client.session->0 + ")"@ + " ["@ + text::decimal(
            client.rect->0.w as int,
        ) + "x"@ + text::decimal(client.rect->0.h as int) + "+"@ + text::decimal(
            client.rect->0.x as int,
        ) + "+"@ + text::decimal(client.rect->0.y as int) + "]"@,
{
    if client.rect is Some {
        let r = client.rect->0;
        if client.session is Some {
            assert(description(client) =~= client.name + " (session "@ + client.session->0 + ")"@
                + " ["@ + text::decimal(r.w as int) + "x"@ + text::decimal(r.h as int) + "+"@
                + text::decimal(r.x as int) + "+"@ + text::decimal(r.y as int) + "]"@);
        } else {
            assert(description(client) =~= client.name + " ["@ + text::decimal(r.w as int) + "x"@
                + text::decimal(r.h as int) + "+"@ + text::decimal(r.x as int) + "+"@
                + text::decimal(r.y as int) + "]"@);
        }
    } else if client.session is Some {
        assert(description(client) =~= client.name + " (session "@ + client.session->0 + ")"@);
    } else {
        assert(description(client) =~= client.name);
    }
}

/// A client with a given number is connected exactly if one of the clients has it; numbers
/// are distinct if no two clients share one; and a session counts if one client is bound.
pub proof fn some_client_makes_the_difference(state: State, id: u64, i: int, j: int)
    requires
        0 <= i < state.clients.len(),
        0 <= j < state.clients.len(),
    ensures
        state.clients[i].id == id ==> state.has(id),
        state.clients[i].session is Some ==> state.bound(),
        i != j && state.clients[i].id == state.clients[j].id ==> !state.numbered(),
{
    if i < j {
        assert(state.clients[i].id != state.clients[j].id || !state.numbered());
    } else if j < i {
        assert(state.clients[j].id != state.clients[i].id || !state.numbered());
    }
}

/// Where no client has a given number, it is not connected; where no client is bound, no
/// session counts; and where the numbers grow in the list, they are distinct.
pub proof fn no_client_makes_no_difference(state: State, id: u64)
    ensures
        (forall|k: int| 0 <= k < state.clients.len() ==> (#[trigger] state.clients[k]).id != id)
            ==> !state.has(id),
        (forall|k: int|
            0 <= k < state.clients.len() ==> (#[trigger] state.clients[k]).session is None)
            ==> !state.bound(),
        (forall|k: int, m: int|
            0 <= k < m < state.clients.len() ==> (#[trigger] state.clients[k]).id < (
            #[trigger] state.clients[m]).id) ==> state.numbered(),
{
    if state.has(id) {
        let k = choose|k: int|
            0 <= k < state.clients.len() && #[trigger] state.clients[k].id == id;
        assert(state.clients[k].id == id);
    }
    if state.bound() {
        let k = choose|k: int|
            0 <= k < state.clients.len() && (#[trigger] state.clients[k]).session is Some;
        assert(state.clients[k].session is Some);
    }
    if forall|k: int, m: int|
        0 <= k < m < state.clients.len() ==> (#[trigger] state.clients[k]).id < (
        #[trigger] state.clients[m]).id {
        assert forall|k: int, m: int| 0 <= k < m < state.clients.len() implies
            #[trigger] state.clients[k].id != #[trigger] state.clients[m].id by {
            assert(state.clients[k].id < state.clients[m].id);
        }
    }
}

/// A client that is registered comes last, after all the others as they were.
pub proof fn newcomer_comes_last(state: State, client: Layer, i: int)
    ensures
        state.with(client).clients.len() == state.clients.len() + 1,
        0 <= i < state.clients.len() ==> state.with(client).clients[i] == state.clients[i],
        state.with(client).clients[state.clients.len() as int] == client,
        state.with(client).active == state.active,
{
}

/// When a client leaves, the others stay as they were and in the same order: of a list that
/// is made up of a first part and a last client, the first part is gone through alike, and
/// the last client stays exactly if its number is another one.
pub proof fn others_stay_in_order(state: State, client: Layer, id: u64)
    ensures
        (State { clients: Seq::empty(), ..state }).without(id).clients.len() == 0,
        client.id == id ==> state.with(client).without(id) == state.without(id),
        client.id != id ==> state.with(client).without(id) == state.without(id).with(client),
        state.without(id).active == state.active,
{
    reveal_with_fuel(Seq::filter, 1);
    assert(state.with(client).clients.drop_last() =~= state.clients);
}

/// Declaring a region replaces that of the client with the number given, and changes nothing
/// else.
pub proof fn only_the_region_is_replaced(state: State, id: u64, rect: Option<Rect>, i: int)
    ensures
        state.redeclared(id, rect).active == state.active,
        state.redeclared(id, rect).clients.len() == state.clients.len(),
        0 <= i < state.clients.len() ==> {
            let before = state.clients[i];
            let after = state.redeclared(id, rect).clients[i];
            &&& after.id == before.id
            &&& after.name == before.name
            &&& after.session == before.session
            &&& before.id == id ==> after.rect == rect
            &&& before.id != id ==> after.rect == before.rect
        },
{
}

/// Finding out the session tmux shows changes what is known of it, and no client.
pub proof fn session_is_taken_note_of(state: State, active: Option<Seq<char>>)
    ensures
        state.showing(active).active == active,
        state.showing(active).clients == state.clients,
{
}

/// The first line decides: a hello under the name reserved for it is answered with the
/// status, any other hello registers the client, and anything else ends the connection
/// without a trace.
pub proof fn first_line_decides(
    state: State,
    table: Map<Seq<char>, Seq<Seq<char>>>,
    id: u64,
    hello: Hello,
    update: RectUpdate,
)
    ensures
        ({
            let t = transition(state, table, id, Phase::Opening, Event::Hello(hello));
            &&& hello.hello@ == "__status__"@ ==> t.state == state && t.phase == Phase::Closed
                && t.effect == Effect::Reply(state.status(table))
            &&& hello.hello@ != "__status__"@ ==> t.state == state.with(newcomer(id, hello))
                && t.phase == Phase::Registered && t.effect == (Effect::Publish {
                find_session: hello.session is Some,
            })
        }),
        ({
            let t = transition(state, table, id, Phase::Opening, Event::Update(update));
            t.state == state && t.phase == Phase::Closed && t.effect == Effect::Rest
        }),
        ({
            let t = transition(state, table, id, Phase::Opening, Event::Unreadable);
            t.state == state && t.phase == Phase::Closed && t.effect == Effect::Rest
        }),
        ({
            let t = transition(state, table, id, Phase::Opening, Event::Ended);
            t.state == state && t.phase == Phase::Closed && t.effect == Effect::Rest
        }),
{
}

/// A registered client can declare its region anew and can leave, and both is sent out to
/// all; any other line of it is passed over. Nothing happens on a closed connection.
pub proof fn later_lines_update_or_end(
    state: State,
    table: Map<Seq<char>, Seq<Seq<char>>>,
    id: u64,
    hello: Hello,
    update: RectUpdate,
    event: Event,
)
    ensures
        ({
            let t = transition(state, table, id, Phase::Registered, Event::Update(update));
            t.state == state.redeclared(id, update.rect) && t.phase == Phase::Registered && t.effect
                == (Effect::Publish { find_session: false })
        }),
        ({
            let t = transition(state, table, id, Phase::Registered, Event::Ended);
            t.state == state.without(id) && t.phase == Phase::Closed && t.effect == (
            Effect::Publish { find_session: false })
        }),
        ({
            let t = transition(state, table, id, Phase::Registered, Event::Hello(hello));
            t.state == state && t.phase == Phase::Registered && t.effect == Effect::Rest
        }),
        ({
            let t = transition(state, table, id, Phase::Registered, Event::Unreadable);
            t.state == state && t.phase == Phase::Registered && t.effect == Effect::Rest
        }),
        ({
            let t = transition(state, table, id, Phase::Closed, event);
            t.state == state && t.phase == Phase::Closed && t.effect == Effect::Rest
        }),
{
}

/// In a broadcast, whatever scene is in force: a client bound to a session other than the one
/// known to be active is told to hide, and if its name is one of the layers of the scene the
/// reason it is told is `"session"`.
pub proof fn broadcast_hides_other_sessions(
    shared: &Shared,
    config: &Config,
    b: Broadcast,
    layers: Seq<Seq<char>>,
    i: int,
)
    requires
        call_ensures(Shared::recompute, (shared, config), b),
        config@.contains_key(b.scene@) ==> layers == config@[b.scene@],
        !config@.contains_key(b.scene@) ==> layers == config@["default"@],
        0 <= i < shared.clients@.len(),
        shared.clients@[i].session is Some,
        shared.active_session is Some,
        shared.clients@[i].session->0@ != shared.active_session->0@,
    ensures
        b.messages@.len() == shared.clients@.len(),
        !b.messages@[i].visible,
        b.messages@[i].clip@.len() == 0,
        (exists|k: int|
            0 <= k < layers.len() && #[trigger] layers[k] == shared.clients@[i].name@)
            ==> b.messages@[i].reason is Some && b.messages@[i].reason->0@ == "session"@,
        b.messages@[i].scene is Some && b.messages@[i].scene->0@ == b.scene@,
{
    let state = shared@;
    assert(state.clients[i] == shared.clients@[i]@);
    assert(b.messages@[i]@ == state.notice(config@, i));
    other_session_hides_in_every_scene(
        state,
        config@,
        layers,
        i,
        state.clients[i].session->0,
        state.active->0,
    );
}

/// In a broadcast, whatever scene is in force: a client bound to no session, or to the active
/// one, or while that is not known, is told to show itself exactly if its name is one of the
/// layers of the scene.
pub proof fn broadcast_shows_the_layers_of_the_scene(
    shared: &Shared,
    config: &Config,
    b: Broadcast,
    layers: Seq<Seq<char>>,
    i: int,
)
    requires
        call_ensures(Shared::recompute, (shared, config), b),
        config@.contains_key(b.scene@) ==> layers == config@[b.scene@],
        !config@.contains_key(b.scene@) ==> layers == config@["default"@],
        0 <= i < shared.clients@.len(),
        shared.clients@[i].session is None || shared.active_session is None
            || shared.clients@[i].session->0@ == shared.active_session->0@,
    ensures
        b.messages@.len() == shared.clients@.len(),
        b.messages@[i].visible <==> exists|k: int|
            0 <= k < layers.len() && #[trigger] layers[k] == shared.clients@[i].name@,
        b.messages@[i].reason is None,
        b.messages@[i].scene is Some && b.messages@[i].scene->0@ == b.scene@,
{
    let state = shared@;
    assert(state.clients[i] == shared.clients@[i]@);
    assert(b.messages@[i]@ == state.notice(config@, i));
    scene_decides_otherwise(state, config@, layers, i);
}

/// In a broadcast the areas are those of the arbitration between the connected clients, under
/// the layers of the scene in force and the active session.
pub proof fn broadcast_keeps_the_areas_apart(
    shared: &Shared,
    config: &Config,
    b: Broadcast,
    layers: Seq<Seq<char>>,
    i: int,
)
    requires
        call_ensures(Shared::recompute, (shared, config), b),
        config@.contains_key(b.scene@) ==> layers == config@[b.scene@],
        !config@.contains_key(b.scene@) ==> layers == config@["default"@],
        0 <= i < shared.clients@.len(),
    ensures
        b.messages@[i].clip@ == (Stage {
            clients: Seq::new(
                shared.clients@.len(),
                |k: int|
                    Layer {
                        id: shared.clients@[k].id,
                        name: shared.clients@[k].name@,
                        session: match shared.clients@[k].session {
                            Some(session) => Some(session@),
                            None => None,
                        },
                        rect: shared.clients@[k].rect,
                    },
            ),
            layers,
            active: match shared.active_session {
                Some(session) => Some(session@),
                None => None,
            },
        }).notice(i).clip,
{
    let clients = Seq::new(
        shared.clients@.len(),
        |k: int|
            Layer {
                id: shared.clients@[k].id,
                name: shared.clients@[k].name@,
                session: match shared.clients@[k].session {
                    Some(session) => Some(session@),
                    None => None,
                },
                rect: shared.clients@[k].rect,
            },
    );
    assert(clients =~= shared@.clients);
    assert(b.messages@[i]@ == shared@.notice(config@, i));
}

/// A broadcast has the status line shown exactly if `"status-bar"` stands somewhere among the
/// layers of the scene in force.
pub proof fn broadcast_shows_the_status_line(
    shared: &Shared,
    config: &Config,
    b: Broadcast,
    layers: Seq<Seq<char>>,
)
    requires
        call_ensures(Shared::recompute, (shared, config), b),
        config@.contains_key(b.scene@) ==> layers == config@[b.scene@],
        !config@.contains_key(b.scene@) ==> layers == config@["default"@],
    ensures
        b.status_on <==> exists|k: int|
            0 <= k < layers.len() && #[trigger] layers[k] == "status-bar"@,
{
    status_line_needs_its_layer(shared@, config@, layers);
}

/// A broadcast tells of the scene that the last client called like one puts in force.
pub proof fn broadcast_tells_the_scene(
    shared: &Shared,
    config: &Config,
    b: Broadcast,
    i: int,
)
    requires
        call_ensures(Shared::recompute, (shared, config), b),
    ensures
        0 <= i < shared.clients@.len() && config@.contains_key(shared.clients@[i].name@)
            && shared.clients@[i].name@ != "default"@ && (forall|j: int|
            i < j < shared.clients@.len() ==> !config@.contains_key(
                (#[trigger] shared.clients@[j]).name@,
            ) || shared.clients@[j].name@ == "default"@) ==> b.scene@ == shared.clients@[i].name@,
        (forall|j: int|
            0 <= j < shared.clients@.len() ==> !config@.contains_key(
                (#[trigger] shared.clients@[j]).name@,
            ) || shared.clients@[j].name@ == "default"@) ==> b.scene@ == "default"@,
{
    let state = shared@;
    assert(forall|j: int|
        0 <= j < shared.clients@.len() ==> #[trigger] state.clients[j] == shared.clients@[j]@);
    last_client_called_like_a_scene_decides(state, config@, i);
}

/// A status query is answered with the scene that a broadcast tells of, the active session,
/// and a line on each client.
pub proof fn status_agrees_with_the_broadcast(
    shared: &Shared,
    config: &Config,
    b: Broadcast,
    reply: StatusReply,
    i: int,
)
    requires
        call_ensures(Shared::recompute, (shared, config), b),
        call_ensures(Shared::status, (shared, config), reply),
    ensures
        reply.scene@ == b.scene@,
        reply.clients@.len() == shared.clients@.len(),
        0 <= i < shared.clients@.len() ==> reply.clients@[i]@ == description(shared.clients@[i]@),
        reply.active_session is Some <==> shared.active_session is Some,
        reply.active_session is Some ==> reply.active_session->0@ == shared.active_session->0@,
{
    assert(reply@ == shared@.status(config@));
    assert(reply@.clients.len() == reply.clients@.len());
    if 0 <= i < shared.clients@.len() {
        assert(reply@.clients[i] == reply.clients@[i]@);
    }
}

/// A server that has just started has no clients and knows of no session.
pub proof fn server_starts_empty(shared: Shared)
    requires
        call_ensures(Shared::new, (), shared),
    ensures
        shared.clients@.len() == 0,
        shared.active_session is None,
{
    assert(shared@.clients.len() == shared.clients@.len());
}

/// Greeting a client under the name reserved for status queries changes nothing and gives the
/// status; greeting any other client adds it to the end, as its hello describes it, and tells
/// whether it is bound to a session.
pub proof fn greeting_answers_or_adds(
    shared: &mut Shared,
    config: &Config,
    id: u64,
    hello: Hello,
    r: Greeting,
)
    requires
        call_ensures(Shared::greet, (shared, config, id, hello), r),
    ensures
        hello.hello@ == "__status__"@ ==> {
            &&& r matches Greeting::Status(reply) && reply@ == old(shared)@.status(config@)
            &&& final(shared)@ == old(shared)@
        },
        hello.hello@ != "__status__"@ ==> {
            let n = old(shared)@.clients.len();
            let added = final(shared)@.clients[n as int];
            &&& r == (Greeting::Joined { bound: hello.session is Some })
            &&& final(shared)@.clients.len() == n + 1
            &&& forall|i: int|
                0 <= i < n ==> #[trigger] final(shared)@.clients[i] == old(shared)@.clients[i]
            &&& added.id == id
            &&& added.name == hello.hello@
            &&& added.session is Some <==> hello.session is Some
            &&& hello.session is Some ==> added.session->0 == hello.session->0@
            &&& added.rect == hello.rect
            &&& final(shared)@.active == old(shared)@.active
        },
{
}

/// Handling the declaration of a region gives it to the client with the number given, takes it
/// away if none is declared, and changes nothing else.
pub proof fn declaration_reaches_its_client(
    shared: &mut Shared,
    id: u64,
    update: RectUpdate,
    i: int,
)
    requires
        call_ensures(Shared::redeclare, (shared, id, update), ()),
    ensures
        final(shared)@.active == old(shared)@.active,
        final(shared)@.clients.len() == old(shared)@.clients.len(),
        0 <= i < old(shared)@.clients.len() ==> {
            let before = old(shared)@.clients[i];
            let after = final(shared)@.clients[i];
            &&& after.id == before.id
            &&& after.name == before.name
            &&& after.session == before.session
            &&& before.id == id ==> after.rect == update.rect
            &&& before.id != id ==> after.rect == before.rect
        },
{
    only_the_region_is_replaced(shared@, id, update.rect, i);
}

/// When the one client with a number leaves, it is taken out of the list and the others move
/// up; where no client has the number, nothing changes.
pub proof fn leaving_takes_one_client_out(shared: &mut Shared, id: u64, k: int)
    requires
        call_ensures(Shared::leave, (shared, id), ()),
        0 <= k <= old(shared)@.clients.len(),
        forall|i: int|
            0 <= i < old(shared)@.clients.len() && i != k ==> (#[trigger] old(
                shared,
            )@.clients[i]).id != id,
    ensures
        final(shared)@.active == old(shared)@.active,
        k == old(shared)@.clients.len() ==> final(shared)@.clients == old(shared)@.clients,
        k < old(shared)@.clients.len() && old(shared)@.clients[k].id == id
            ==> final(shared)@.clients == old(shared)@.clients.remove(k),
{
    let all = shared@.clients;
    if k == all.len() {
        filter_keeps_all(all, id);
    } else if all[k].id == id {
        let before = State { clients: all.take(k), ..shared@ };
        let later = all.skip(k + 1);
        assert forall|i: int| 0 <= i < later.len() implies (#[trigger] later[i]).id != id by {
            assert(later[i] == all[k + 1 + i]);
        }
        assert(!before.has(id)) by {
            if before.has(id) {
                let i = choose|i: int|
                    0 <= i < before.clients.len() && #[trigger] before.clients[i].id == id;
                assert(all[i] == before.clients[i]);
            }
        }
        leaving_undoes_joining(before, all[k], later);
        assert(before.clients.push(all[k]) + later =~= all);
        assert(before.clients + later =~= all.remove(k));
        assert((State { clients: before.clients.push(all[k]) + later, ..before }) == shared@);
    }
}

/// The active session is needed exactly if some client is bound to one; where it is not
/// needed, it is forgotten. The clients stay as they are.
pub proof fn session_is_needed_by_bound_clients(shared: &mut Shared, r: bool, i: int)
    requires
        call_ensures(Shared::needs_session, (shared,), r),
    ensures
        0 <= i < old(shared)@.clients.len() && old(shared)@.clients[i].session is Some ==> r,
        (forall|k: int|
            0 <= k < old(shared)@.clients.len() ==> (#[trigger] old(
                shared,
            )@.clients[k]).session is None) ==> !r,
        r ==> final(shared)@.active == old(shared)@.active,
        !r ==> final(shared)@.active is None,
        final(shared)@.clients == old(shared)@.clients,
{
    no_client_makes_no_difference(shared@, 0);
    if 0 <= i < shared@.clients.len() {
        some_client_makes_the_difference(shared@, 0, i, i);
    }
}

/// What tmux was found to show replaces what was known, and it counts as a change exactly if
/// it is another session, or known where it was not, or the other way round.
pub proof fn observation_replaces_the_session(
    shared: &mut Shared,
    now: Option<String>,
    changed: bool,
)
    requires
        call_ensures(Shared::observe, (shared, now), changed),
    ensures
        final(shared)@.clients == old(shared)@.clients,
        now is Some <==> final(shared)@.active is Some,
        now is Some ==> final(shared)@.active->0 == now->0@,
        !changed <==> (now is None && old(shared)@.active is None) || (now is Some && old(
            shared,
        )@.active is Some && now->0@ == old(shared)@.active->0),
{
}

/// A first line that is no hello closes the connection and does nothing. The name reserved for
/// status queries closes it after a reply; any other hello opens it and is sent out, after the
/// session was found out if the client is bound to one.
pub proof fn opening_is_handled(
    shared: &mut Shared,
    config: &Config,
    id: u64,
    event: Event,
    r: (Phase, Action),
)
    requires
        call_ensures(Shared::handle, (shared, config, id, Phase::Opening, event), r),
    ensures
        event !is Hello ==> r.0 == Phase::Closed && r.1 is Rest && final(shared)@ == old(shared)@,
        event matches Event::Hello(hello) ==> hello.hello@ == "__status__"@ ==> {
            &&& r.0 == Phase::Closed
            &&& r.1 matches Action::Reply(reply) && reply@ == old(shared)@.status(config@)
            &&& final(shared)@ == old(shared)@
        },
        event matches Event::Hello(hello) ==> hello.hello@ != "__status__"@ ==> {
            &&& r.0 == Phase::Registered
            &&& r.1 == (Action::Publish { find_session: hello.session is Some })
            &&& final(shared)@ == old(shared)@.with(newcomer(id, hello))
        },
{
}

/// A registered client stays so until its connection ends. Its declarations and its end are
/// applied under its own number and sent out; anything else is passed over.
pub proof fn registered_client_is_handled(
    shared: &mut Shared,
    config: &Config,
    id: u64,
    event: Event,
    r: (Phase, Action),
)
    requires
        call_ensures(Shared::handle, (shared, config, id, Phase::Registered, event), r),
    ensures
        r.0 == Phase::Closed <==> event is Ended,
        r.0 == Phase::Registered <==> event !is Ended,
        event is Ended ==> r.1 == (Action::Publish { find_session: false }) && final(shared)@
            == old(shared)@.without(id),
        event matches Event::Update(update) ==> r.1 == (Action::Publish { find_session: false })
            && final(shared)@ == old(shared)@.redeclared(id, update.rect),
        event is Hello || event is Unreadable ==> r.1 is Rest && final(shared)@ == old(shared)@,
{
}

/// Nothing is done any more on a closed connection.
pub proof fn closed_connection_stays_closed(
    shared: &mut Shared,
    config: &Config,
    id: u64,
    event: Event,
    r: (Phase, Action),
)
    requires
        call_ensures(Shared::handle, (shared, config, id, Phase::Closed, event), r),
    ensures
        r.0 == Phase::Closed,
        r.1 is Rest,
        final(shared)@ == old(shared)@,
{
}

/// The scene that a list of clients brings about is the name of the last of them that is
/// called like a known scene other than `"default"`; where none is, it is `"default"`.
pub proof fn scene_is_found_from_the_end(
    reg: &[Client],
    config: &Config,
    scene: String,
    i: int,
)
    requires
        call_ensures(current_scene, (reg, config), scene),
    ensures
        0 <= i < reg@.len() && config@.contains_key(reg@[i].name@) && reg@[i].name@ != "default"@
            && (forall|j: int|
            i < j < reg@.len() ==> !config@.contains_key((#[trigger] reg@[j]).name@)
                || reg@[j].name@ == "default"@) ==> scene@ == reg@[i].name@,
        (forall|j: int|
            0 <= j < reg@.len() ==> !config@.contains_key((#[trigger] reg@[j]).name@)
                || reg@[j].name@ == "default"@) ==> scene@ == "default"@,
{
    let state = State { clients: clients_in(reg@), active: None };
    assert(forall|j: int| 0 <= j < reg@.len() ==> #[trigger] state.clients[j] == reg@[j]@);
    last_client_called_like_a_scene_decides(state, config@, i);
}

} // verus!
