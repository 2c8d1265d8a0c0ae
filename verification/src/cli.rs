//! The command line: what is asked for, and how the answer is printed.
use crate::protocol::{Hello, Status, StatusReply, STATUS_QUERY_NAME};
use crate::text;
use vstd::prelude::*;

verus! {

/// What the program is asked to do.
#[derive(Debug, Clone, Copy, PartialEq, Eq, Structural)]
pub enum Command {
    /// Run the server.
    Serve,
    /// Print the scene and the clients of the running server.
    Status,
    /// Neither: explain the usage.
    Help,
}

/// What the first argument asks for.
pub open spec fn asked_for(argument: Seq<char>) -> Command {
    if argument == "serve"@ {
        Command::Serve
    } else if argument == "status"@ {
        Command::Status
    } else {
        Command::Help
    }
}

/// Reads the first argument; an empty text stands for a missing one.
pub fn command(argument: &str) -> (r: Command)
    ensures
        r == asked_for(argument@),
{
    if text::same(argument, "serve") {
        Command::Serve
    } else if text::same(argument, "status") {
        Command::Status
    } else {
        Command::Help
    }
}

/// The lines that explain the usage, after a first argument that asks for nothing known.
/// An argument that was given is named first.
pub fn usage(argument: &str) -> (lines: Vec<String>)
    ensures
        text::texts(lines@) == (if argument@.len() > 0 {
            seq!["不明なサブコマンド: "@ + argument@]
        } else {
            Seq::empty()
        }) + seq!["使い方: fb-server <serve|status>"@],
{
    let mut lines: Vec<String> = Vec::new();
    if !argument.is_empty() {
        let mut line: String = "不明なサブコマンド: ".to_owned();
        line.append(argument);
        lines.push(line);
    }
    lines.push("使い方: fb-server <serve|status>".to_owned());
    assert(text::texts(lines@) =~= (if argument@.len() > 0 {
        seq!["不明なサブコマンド: "@ + argument@]
    } else {
        Seq::empty()
    }) + seq!["使い方: fb-server <serve|status>"@]);
    lines
}

/// The hello that asks for the status.
pub fn status_query() -> (hello: Hello)
    ensures
        hello.hello@ == STATUS_QUERY_NAME@,
        hello.session is None,
        hello.rect is None,
{
    Hello { hello: STATUS_QUERY_NAME.to_owned(), session: None, rect: None }
}

/// The lines that report a status: the scene, the active session if it is known, and the
/// clients, one on each line.
pub open spec fn report_lines(status: Status) -> Seq<Seq<char>> {
    let session = match status.active_session {
        Some(session) => seq!["active tmux session: "@ + session],
        None => Seq::empty(),
    };
    let clients = if status.clients.len() == 0 {
        seq!["clients: (none)"@]
    } else {
        seq!["clients:"@] + status.clients.map_values(|c: Seq<char>| "  - "@ + c)
    };
    seq!["scene: "@ + status.scene] + session + clients
}

/// Reports a status.
pub fn report(reply: &StatusReply) -> (lines: Vec<String>)
    ensures
        text::texts(lines@) == report_lines(reply@),
{
    let mut lines: Vec<String> = Vec::new();
    let mut scene: String = "scene: ".to_owned();
    scene.append(reply.scene.as_str());
    lines.push(scene);
    if let Some(session) = &reply.active_session {
        let mut line: String = "active tmux session: ".to_owned();
        line.append(session.as_str());
        lines.push(line);
    }
    let ghost head = text::texts(lines@);
    let n: usize = reply.clients.len();
    if n == 0 {
        lines.push("clients: (none)".to_owned());
        assert(text::texts(lines@) =~= report_lines(reply@));
        return lines;
    }
    lines.push("clients:".to_owned());
    let ghost items = reply@.clients.map_values(|c: Seq<char>| "  - "@ + c);
    let ghost start = head.push("clients:"@);
    assert(text::texts(lines@) =~= start + items.take(0));
    let mut i: usize = 0;
    while i < n
        invariant
            i <= n,
            n == reply.clients@.len(),
            items == reply@.clients.map_values(|c: Seq<char>| "  - "@ + c),
            text::texts(lines@) == start + items.take(i as int),
        decreases n - i,
    {
        let ghost before = text::texts(lines@);
        let mut line: String = "  - ".to_owned();
        line.append(reply.clients[i].as_str());
        assert(line@ == items[i as int]);
        lines.push(line);
        assert(text::texts(lines@) =~= before.push(items[i as int]));
        assert(text::texts(lines@) =~= start + items.take(i + 1));
        i += 1;
    }
    assert(items.take(n as int) =~= items);
    assert(text::texts(lines@) =~= report_lines(reply@));
    lines
}

/// Each command is asked for by its own name, and by nothing else.
pub proof fn commands_have_their_names(argument: Seq<char>)
    ensures
        asked_for(argument) == Command::Serve <==> argument == "serve"@,
        asked_for(argument) == Command::Status <==> argument == "status"@,
{
    reveal_strlit("serve");
    reveal_strlit("status");
    assert("serve"@.len() != "status"@.len());
}

/// A report tells the scene on its first line, the active session, if it is known, on its
/// second, and ends with the clients in their order, one on each line below a heading.
pub proof fn report_tells_everything(status: Status, k: int)
    ensures
        ({
            let lines = report_lines(status);
            let n = status.clients.len();
            let above: int = if status.active_session is Some {
                2
            } else {
                1
            };
            &&& lines[0] == "scene: "@ + status.scene
            &&& status.active_session is Some ==> lines[1] == "active tmux session: "@
                + status.active_session->0
            &&& n == 0 ==> lines.len() == above + 1 && lines[above] == "clients: (none)"@
            &&& n > 0 ==> lines.len() == above + 1 + n && lines[above] == "clients:"@
            &&& 0 <= k < n ==> lines[above + 1 + k] == "  - "@ + status.clients[k]
        }),
{
}

/// The first argument selects the command of its name; any other one, and none, asks for help.
pub proof fn argument_selects_the_command(argument: &str, r: Command)
    requires
        call_ensures(command, (argument,), r),
    ensures
        r == Command::Serve <==> argument@ == "serve"@,
        r == Command::Status <==> argument@ == "status"@,
        r == Command::Help <==> argument@ != "serve"@ && argument@ != "status"@,
{
    commands_have_their_names(argument@);
}

/// The usage comes last, after a line on the argument that was not understood, if there was
/// one.
pub proof fn usage_names_the_argument(argument: &str, lines: Vec<String>)
    requires
        call_ensures(usage, (argument,), lines),
    ensures
        argument@.len() == 0 ==> lines@.len() == 1 && lines@[0]@
            == "使い方: fb-server <serve|status>"@,
        argument@.len() > 0 ==> lines@.len() == 2 && lines@[0]@ == "不明なサブコマンド: "@ + argument@
            && lines@[1]@ == "使い方: fb-server <serve|status>"@,
{
    let all = text::texts(lines@);
    assert(all.len() == lines@.len());
    assert(all[0] == lines@[0]@);
    if argument@.len() > 0 {
        assert(all[1] == lines@[1]@);
    }
}

/// A status query says hello under the reserved name, and nothing else.
pub proof fn status_query_uses_the_reserved_name(hello: Hello)
    requires
        call_ensures(status_query, (), hello),
    ensures
        hello.hello@ == "__status__"@,
        hello.session is None,
        hello.rect is None,
{
}

/// A report of a reply tells its scene on the first line, its session, if it has one, on the
/// second, and ends with its clients in their order, one on each line below a heading.
pub proof fn reply_is_reported_line_by_line(reply: &StatusReply, lines: Vec<String>, k: int)
    requires
        call_ensures(report, (reply,), lines),
    ensures
        ({
            let n = reply.clients@.len();
            let above: int = if reply.active_session is Some {
                2
            } else {
                1
            };
            &&& lines@.len() == above + 1 + n
            &&& lines@[0]@ == "scene: "@ + reply.scene@
            &&& reply.active_session is Some ==> lines@[1]@ == "active tmux session: "@
                + reply.active_session->0@
            &&& lines@[above]@ == if n == 0 {
                "clients: (none)"@
            } else {
                "clients:"@
            }
            &&& 0 <= k < n ==> lines@[above + 1 + k]@ == "  - "@ + reply.clients@[k]@
        }),
{
    let all = text::texts(lines@);
    report_tells_everything(reply@, k);
    assert(all == report_lines(reply@));
    assert(all.len() == lines@.len());
    assert(forall|j: int| 0 <= j < lines@.len() ==> #[trigger] lines@[j]@ == all[j]);
}

} // verus!
