//! Finding a tmux server, and the arguments it is called with.
//!
//! `$TMUX` may name a socket that cannot be reached. The sockets that come into question
//! are therefore listed, and the first one that answers is used from then on.
use crate::text;
use vstd::prelude::*;
use vstd::slice::slice_subrange;

verus! {

/// An error of [`core::str::from_utf8`].
#[verifier::external_type_specification]
#[verifier::external_body]
pub struct ExUtf8Error(core::str::Utf8Error);

/// [`core::str::from_utf8`] succeeds exactly on valid UTF-8, and then gives the text whose
/// encoding the bytes are.
pub assume_specification<'a>[ core::str::from_utf8 ](v: &'a [u8]) -> (r: Result<
    &'a str,
    core::str::Utf8Error,
>)
    ensures
        r is Ok <==> vstd::utf8::valid_utf8(v@),
        r is Ok ==> vstd::utf8::encode_utf8(r->Ok_0@) == v@,
;

/// The text that [`String::from_utf8_lossy`] makes of bytes.
pub uninterp spec fn lossy_text(bytes: Seq<u8>) -> Seq<char>;

/// Decodes bytes with [`String::from_utf8_lossy`]. The text depends on the bytes alone, and
/// valid UTF-8 is decoded as it stands. What is put in the place of invalid parts is left
/// to that function.
#[verifier::external_body]
fn decode_lossy(bytes: &[u8]) -> (r: String)
    ensures
        r@ == lossy_text(bytes@),
        vstd::utf8::valid_utf8(bytes@) ==> r@ == vstd::utf8::decode_utf8(bytes@),
{
    String::from_utf8_lossy(bytes).into_owned()
}

/// Whether failures are to be reported, given the value of `TOUCH_DEBUG`.
pub fn debug_on(touch_debug: Option<&str>) -> (r: bool)
    ensures
        r == match text::text_of(touch_debug) {
            Some(value) => value != "0"@ && value.len() > 0,
            None => false,
        },
{
    match touch_debug {
        Some(value) => !text::same(value, "0") && !value.is_empty(),
        None => false,
    }
}

/// The arguments that select a socket; none for the default one.
pub open spec fn socket_args(socket: Option<Seq<char>>) -> Seq<Seq<char>> {
    match socket {
        Some(path) => seq!["-S"@, path],
        None => Seq::empty(),
    }
}

/// The arguments of a call of tmux: those that select the socket, followed by `extra`.
pub fn full_args(socket: Option<&str>, extra: &[&str]) -> (args: Vec<String>)
    ensures
        text::texts(args@) == socket_args(text::text_of(socket)) + text::slices(extra@),
{
    let mut args: Vec<String> = Vec::new();
    if let Some(path) = socket {
        args.push("-S".to_owned());
        args.push(path.to_owned());
    }
    let ghost head = socket_args(text::text_of(socket));
    assert(text::texts(args@) =~= head);
    let n: usize = extra.len();
    let mut i: usize = 0;
    assert(head + text::slices(extra@).take(0) =~= head);
    while i < n
        invariant
            i <= n,
            n == extra@.len(),
            text::texts(args@) == head + text::slices(extra@).take(i as int),
        decreases n - i,
    {
        let ghost before = text::texts(args@);
        args.push(extra[i].to_owned());
        assert(text::texts(args@) =~= before.push(text::slices(extra@)[i as int]));
        assert(text::texts(args@) =~= head + text::slices(extra@).take(i + 1));
        i += 1;
    }
    assert(text::slices(extra@).take(n as int) =~= text::slices(extra@));
    args
}

/// The arguments of the call that finds out whether tmux answers on a socket.
pub fn probe_args(socket: Option<&str>) -> (args: Vec<String>)
    ensures
        text::texts(args@) == socket_args(text::text_of(socket)).push("list-sessions"@),
{
    let mut query: Vec<&str> = Vec::new();
    query.push("list-sessions");
    let args: Vec<String> = full_args(socket, query.as_slice());
    assert(text::texts(args@) =~= socket_args(text::text_of(socket)).push("list-sessions"@));
    args
}

/// The arguments that show or hide the tmux status line.
pub fn status_line_args(on: bool) -> (args: Vec<&'static str>)
    ensures
        text::slices(args@) == seq![
            "set"@,
            "-g"@,
            "status"@,
            if on {
                "on"@
            } else {
                "off"@
            },
        ],
{
    let mut args: Vec<&'static str> = Vec::new();
    args.push("set");
    args.push("-g");
    args.push("status");
    args.push(if on {
        "on"
    } else {
        "off"
    });
    assert(text::slices(args@) =~= seq![
        "set"@,
        "-g"@,
        "status"@,
        if on {
            "on"@
        } else {
            "off"@
        },
    ]);
    args
}

/// How a call of tmux went.
pub enum Outcome {
    /// tmux ran and exited, successfully or not.
    Finished { success: bool, stdout: Vec<u8> },
    /// tmux could not be started.
    NotStarted,
}

impl Outcome {
    /// Whether the call failed.
    pub fn failed(&self) -> (r: bool)
        ensures
            r == !(*self matches Outcome::Finished { success, .. } && success),
    {
        match self {
            Outcome::Finished { success, .. } => !*success,
            Outcome::NotStarted => true,
        }
    }

    /// What tmux printed, as text; nothing if the call failed. Output that is valid UTF-8 is
    /// given as it stands.
    pub fn captured(self) -> (r: String)
        ensures
            r@ == match self {
                Outcome::Finished { success: true, stdout } => lossy_text(stdout@),
                _ => Seq::empty(),
            },
            self matches Outcome::Finished { success: true, stdout } && vstd::utf8::valid_utf8(
                stdout@,
            ) ==> r@ == vstd::utf8::decode_utf8(self->stdout@),
    {
        match self {
            Outcome::Finished { success: true, stdout } => decode_lossy(stdout.as_slice()),
            _ => String::new(),
        }
    }
}

/// Whether a process is a tmux server, going by the name in its `comm` file.
pub fn is_tmux_process(comm: &str) -> (r: bool)
    ensures
        r == "tmux"@.is_prefix_of(text::trimmed_start(comm@)),
{
    let s: Vec<char> = text::characters(comm);
    let n: usize = s.len();
    let at: usize = text::skip_blanks(&s, 0, n);
    assert(s@.subrange(0, n as int) =~= comm@);
    assert(s@.skip(at as int) =~= s@.subrange(at as int, n as int));
    text::stands_at(&s, at, "tmux")
}

/// Whether a directory is one that tmux keeps its sockets in, going by its name.
pub fn is_socket_dir(name: &str) -> (r: bool)
    ensures
        r == "tmux-"@.is_prefix_of(name@),
{
    let s: Vec<char> = text::characters(name);
    assert(s@.skip(0) =~= name@);
    text::stands_at(&s, 0, "tmux-")
}

/// The directory that an environment variable, given as `name=value`, sets for the
/// sockets: the value of `TMUX_TMPDIR`, if it is text and not empty.
pub open spec fn tmpdir_in(variable: Seq<u8>) -> Option<Seq<char>> {
    let key = vstd::utf8::encode_utf8("TMUX_TMPDIR="@);
    let value = variable.skip(key.len() as int);
    if key.is_prefix_of(variable) && value.len() > 0 && vstd::utf8::valid_utf8(value) {
        Some(vstd::utf8::decode_utf8(value))
    } else {
        None
    }
}

/// The directories that a list of environment variables sets for the sockets.
pub open spec fn tmpdirs_in(variables: Seq<Seq<u8>>) -> Seq<Seq<char>>
    decreases variables.len(),
{
    if variables.len() == 0 {
        Seq::empty()
    } else {
        let before = tmpdirs_in(variables.drop_last());
        match tmpdir_in(variables.last()) {
            Some(dir) => before.push(dir),
            None => before,
        }
    }
}

/// Whether `prefix` stands at the start of `bytes`.
fn starts_with(bytes: &[u8], prefix: &[u8]) -> (r: bool)
    ensures
        r == prefix@.is_prefix_of(bytes@),
{
    let n: usize = prefix.len();
    if bytes.len() < n {
        return false;
    }
    let mut i: usize = 0;
    while i < n
        invariant
            i <= n,
            n == prefix@.len(),
            n <= bytes@.len(),
            forall|k: int| 0 <= k < i ==> #[trigger] prefix@[k] == bytes@[k],
        decreases n - i,
    {
        if bytes[i] != prefix[i] {
            assert(bytes@.take(n as int)[i as int] == bytes@[i as int]);
            return false;
        }
        i += 1;
    }
    assert(bytes@.subrange(0, n as int) =~= prefix@);
    true
}

/// Reads the directory for the sockets from an environment variable.
fn read_tmpdir(variable: &[u8]) -> (r: Option<String>)
    ensures
        text::string_of(r) == tmpdir_in(variable@),
{
    let key: &[u8] = "TMUX_TMPDIR=".as_bytes();
    if !starts_with(variable, key) {
        return None;
    }
    let value: &[u8] = slice_subrange(variable, key.len(), variable.len());
    assert(value@ =~= variable@.skip(key@.len() as int));
    match core::str::from_utf8(value) {
        Ok(dir) => {
            proof {
                vstd::utf8::encode_utf8_decode_utf8(dir@);
            }
            if value.len() == 0 {
                None
            } else {
                Some(dir.to_owned())
            }
        },
        Err(_) => None,
    }
}

/// Collects the directories for the sockets from the environment of a process, whose
/// variables are separated by zero bytes.
pub fn tmpdirs_from_environ(environ: &[u8]) -> (dirs: Vec<String>)
    ensures
        text::texts(dirs@) == tmpdirs_in(text::pieces(environ@, 0u8)),
{
    let n: usize = environ.len();
    let mut dirs: Vec<String> = Vec::new();
    let mut start: usize = 0;
    let mut i: usize = 0;
    let ghost mut done: Seq<Seq<u8>> = Seq::empty();
    proof {
        assert(environ@.take(0) =~= Seq::empty());
        assert(done.push(environ@.subrange(0, 0)) =~= text::pieces(environ@.take(0), 0u8));
        assert(text::texts(dirs@) =~= tmpdirs_in(done));
    }
    while i < n
        invariant
            start <= i <= n,
            n == environ@.len(),
            text::pieces(environ@.take(i as int), 0u8) == done.push(
                environ@.subrange(start as int, i as int),
            ),
            text::texts(dirs@) == tmpdirs_in(done),
        decreases n - i,
    {
        let ghost piece = environ@.subrange(start as int, i as int);
        assert(environ@.take(i + 1).drop_last() =~= environ@.take(i as int));
        assert(environ@.take(i + 1).last() == environ@[i as int]);
        if environ[i] == 0 {
            add_tmpdir(&mut dirs, slice_subrange(environ, start, i), Ghost(done));
            proof {
                done = done.push(piece);
            }
            start = i + 1;
            assert(environ@.subrange(start as int, start as int) =~= Seq::empty());
        } else {
            assert(done.push(piece).drop_last() =~= done);
            assert(piece.push(environ@[i as int]) =~= environ@.subrange(start as int, i + 1));
        }
        i += 1;
    }
    add_tmpdir(&mut dirs, slice_subrange(environ, start, n), Ghost(done));
    assert(environ@.take(n as int) =~= environ@);
    dirs
}

/// Adds the directory that one more environment variable sets, if it sets one.
fn add_tmpdir(dirs: &mut Vec<String>, variable: &[u8], Ghost(done): Ghost<Seq<Seq<u8>>>)
    requires
        text::texts(old(dirs)@) == tmpdirs_in(done),
    ensures
        text::texts(final(dirs)@) == tmpdirs_in(done.push(variable@)),
{
    let ghost before = text::texts(dirs@);
    assert(done.push(variable@).drop_last() =~= done);
    if let Some(dir) = read_tmpdir(variable) {
        dirs.push(dir);
        assert(text::texts(dirs@) =~= before.push(dir@));
    }
}

/// A list of the text, if there is one and it is not empty.
pub open spec fn if_given(value: Option<Seq<char>>) -> Seq<Seq<char>> {
    if value is Some && value->0.len() > 0 {
        seq![value->0]
    } else {
        Seq::empty()
    }
}

/// The sockets named by the environment: the value of `TOUCH_TMUX_SOCKET`, and the first
/// field of `TMUX`, whose fields are separated by commas.
pub open spec fn named_sockets(
    touch_tmux_socket: Option<Seq<char>>,
    tmux: Option<Seq<char>>,
) -> Seq<Seq<char>> {
    let field = match tmux {
        Some(fields) => Some(text::up_to(fields, ',')),
        None => None,
    };
    if_given(touch_tmux_socket) + if_given(field)
}

/// The directories in which sockets are looked for: the value of `TMUX_TMPDIR`, `/tmp`, and
/// those that the running tmux servers use.
pub open spec fn bases(
    tmux_tmpdir: Option<Seq<char>>,
    running: Seq<Seq<char>>,
) -> Seq<Seq<char>> {
    if_given(tmux_tmpdir) + seq!["/tmp"@] + running
}

/// Lists the directories in which sockets are looked for, in order and each once.
pub fn search_bases(tmux_tmpdir: Option<&str>, running: &Vec<String>) -> (r: Vec<String>)
    ensures
        text::ascending(text::texts(r@)),
        forall|dir: Seq<char>| #[trigger]
            text::texts(r@).contains(dir) <==> bases(
                text::text_of(tmux_tmpdir),
                text::texts(running@),
            ).contains(dir),
{
    let ghost given = if_given(text::text_of(tmux_tmpdir));
    let ghost listed = text::texts(running@);
    let ghost all = given + seq!["/tmp"@] + listed;
    let mut dirs: Vec<String> = Vec::new();
    if let Some(dir) = tmux_tmpdir {
        if !dir.is_empty() {
            text::insert_sorted(&mut dirs, dir.to_owned());
            assert(given[0] == dir@);
        }
    }
    text::insert_sorted(&mut dirs, "/tmp".to_owned());
    let n: usize = running.len();
    let mut i: usize = 0;
    while i < n
        invariant
            i <= n,
            n == running@.len(),
            listed == text::texts(running@),
            text::ascending(text::texts(dirs@)),
            forall|dir: Seq<char>| #[trigger]
                text::texts(dirs@).contains(dir) <==> given.contains(dir) || dir == "/tmp"@
                    || exists|k: int| 0 <= k < i && #[trigger] listed[k] == dir,
        decreases n - i,
    {
        text::insert_sorted(&mut dirs, running[i].clone());
        assert(listed[i as int] == running@[i as int]@);
        i += 1;
    }
    proof {
        assert forall|dir: Seq<char>| #[trigger]
            text::texts(dirs@).contains(dir) <==> all.contains(dir) by {
            if given.contains(dir) {
                let k = choose|k: int| 0 <= k < given.len() && given[k] == dir;
                assert(all[k] == dir);
            }
            if dir == "/tmp"@ {
                assert(all[given.len() as int] == dir);
            }
            if exists|k: int| 0 <= k < n && #[trigger] listed[k] == dir {
                let k = choose|k: int| 0 <= k < n && #[trigger] listed[k] == dir;
                assert(all[given.len() + 1 + k] == dir);
            }
            if all.contains(dir) {
                let k = choose|k: int| 0 <= k < all.len() && all[k] == dir;
                if k < given.len() {
                    assert(given[k] == dir);
                } else if k > given.len() {
                    assert(listed[k - given.len() - 1] == dir);
                }
            }
        }
    }
    dirs
}

/// Lists the sockets to be tried: those named by the environment, followed by those `found`
/// in the directories, without immediate repetitions.
pub fn candidates(
    touch_tmux_socket: Option<&str>,
    tmux: Option<&str>,
    found: &Vec<String>,
) -> (r: Vec<String>)
    ensures
        text::texts(r@) == text::without_repeats(
            named_sockets(text::text_of(touch_tmux_socket), text::text_of(tmux)) + text::texts(
                found@,
            ),
        ),
{
    let mut list: Vec<String> = Vec::new();
    if let Some(path) = touch_tmux_socket {
        if !path.is_empty() {
            list.push(path.to_owned());
        }
    }
    assert(text::texts(list@) =~= if_given(text::text_of(touch_tmux_socket)));
    if let Some(fields) = tmux {
        let path: &str = text::before_first(fields, ',');
        if !path.is_empty() {
            list.push(path.to_owned());
        }
    }
    let ghost named = named_sockets(text::text_of(touch_tmux_socket), text::text_of(tmux));
    assert(text::texts(list@) =~= named);
    let mut rest: Vec<String> = text::copy(found);
    list.append(&mut rest);
    assert(text::texts(list@) =~= named + text::texts(found@));
    text::drop_repeats(&list)
}

/// Which socket tmux is called with.
pub enum Choice {
    /// The default one: tmux answers without being told a socket.
    Bare,
    /// This one.
    Socket(String),
    /// None of them answers. The default one is used nevertheless.
    Unreachable,
}

/// The contents of a [`Choice`].
pub enum Verdict {
    Bare,
    Socket(Seq<char>),
    Unreachable,
}

impl View for Choice {
    type V = Verdict;

    open spec fn view(&self) -> Verdict {
        match *self {
            Choice::Bare => Verdict::Bare,
            Choice::Socket(path) => Verdict::Socket(path@),
            Choice::Unreachable => Verdict::Unreachable,
        }
    }
}

/// A search for a socket on which tmux answers: the default one first, then the
/// candidates in their order.
pub struct Search {
    candidates: Vec<String>,
    /// How many calls have failed so far.
    failed: usize,
}

/// What the candidates come to, from the one at `from` on, where `answers` says on which
/// sockets tmux answers.
pub open spec fn first_answering(
    candidates: Seq<Seq<char>>,
    from: int,
    answers: spec_fn(Option<Seq<char>>) -> bool,
) -> Verdict
    decreases candidates.len() - from,
{
    if from < 0 || from >= candidates.len() {
        Verdict::Unreachable
    } else if answers(Some(candidates[from])) {
        Verdict::Socket(candidates[from])
    } else {
        first_answering(candidates, from + 1, answers)
    }
}

impl Search {
    /// The candidates.
    pub closed spec fn sockets(self) -> Seq<Seq<char>> {
        text::texts(self.candidates@)
    }

    /// How many calls have failed so far.
    pub closed spec fn failures(self) -> int {
        self.failed as int
    }

    #[verifier::type_invariant]
    spec fn well_formed(self) -> bool {
        self.failed <= self.candidates@.len()
    }

    /// The socket to be tried next: the default one, or a candidate.
    pub open spec fn next(self) -> Option<Seq<char>> {
        if self.failures() == 0 {
            None
        } else {
            Some(self.sockets()[self.failures() - 1])
        }
    }

    /// What the search will come to, where `answers` says on which sockets tmux answers.
    pub open spec fn verdict(self, answers: spec_fn(Option<Seq<char>>) -> bool) -> Verdict {
        if self.failures() > 0 {
            first_answering(self.sockets(), self.failures() - 1, answers)
        } else if answers(None) {
            Verdict::Bare
        } else {
            first_answering(self.sockets(), 0, answers)
        }
    }

    /// Begins a search.
    pub fn new(candidates: Vec<String>) -> (search: Search)
        ensures
            search.sockets() == text::texts(candidates@),
            search.failures() == 0,
    {
        Search { candidates, failed: 0 }
    }

    /// The socket to be tried next: `None` stands for the default one.
    pub fn pending(&self) -> (socket: Option<&str>)
        ensures
            text::text_of(socket) == self.next(),
    {
        proof {
            use_type_invariant(self);
        }
        if self.failed == 0 {
            None
        } else {
            Some(self.candidates[self.failed - 1].as_str())
        }
    }

    /// Takes note of whether tmux answered on the pending socket. If it did, or if there is
    /// no further socket, the search is over.
    pub fn advance(self, answered: bool) -> (r: Result<Choice, Search>)
        ensures
            match r {
                Ok(choice) => {
                    ||| answered && choice@ == match self.next() {
                        None => Verdict::Bare,
                        Some(path) => Verdict::Socket(path),
                    }
                    ||| !answered && choice@ == Verdict::Unreachable && self.failures()
                        == self.sockets().len()
                },
                Err(search) => {
                    &&& !answered
                    &&& self.failures() < self.sockets().len()
                    &&& search.sockets() == self.sockets()
                    &&& search.failures() == self.failures() + 1
                },
            },
            forall|answers: spec_fn(Option<Seq<char>>) -> bool|
                answered == answers(self.next()) ==> match r {
                    Ok(choice) => choice@ == #[trigger] self.verdict(answers),
                    Err(search) => search.verdict(answers) == self.verdict(answers),
                },
    {
        proof {
            use_type_invariant(&self);
        }
        if answered {
            if self.failed == 0 {
                return Ok(Choice::Bare);
            }
            return Ok(Choice::Socket(self.candidates[self.failed - 1].clone()));
        }
        proof {
            reveal_with_fuel(first_answering, 2);
        }
        if self.failed == self.candidates.len() {
            return Ok(Choice::Unreachable);
        }
        Err(Search { candidates: self.candidates, failed: self.failed + 1 })
    }
}

/// A socket is selected by `-S` and its path, ahead of all other arguments; without a socket
/// there is no such argument.
pub proof fn socket_comes_first(path: Seq<char>)
    ensures
        socket_args(Some(path)).len() == 2,
        socket_args(Some(path))[0] == "-S"@,
        socket_args(Some(path))[1] == path,
        socket_args(None).len() == 0,
{
}

proof fn encoding_of_parts(a: Seq<char>, b: Seq<char>)
    ensures
        vstd::utf8::encode_utf8(a + b) == vstd::utf8::encode_utf8(a) + vstd::utf8::encode_utf8(b),
    decreases a.len(),
{
    if a.len() == 0 {
        assert(a + b =~= b);
        assert(vstd::utf8::encode_utf8(a) + vstd::utf8::encode_utf8(b) =~= vstd::utf8::encode_utf8(
            b,
        ));
    } else {
        assert((a + b).drop_first() =~= a.drop_first() + b);
        encoding_of_parts(a.drop_first(), b);
        assert(vstd::utf8::encode_utf8(a + b) =~= vstd::utf8::encode_utf8(a)
            + vstd::utf8::encode_utf8(b));
    }
}

/// The variable `TMUX_TMPDIR` gives the directory it is set to.
pub proof fn tmpdir_is_what_the_variable_is_set_to(dir: Seq<char>)
    ensures
        dir.len() > 0 ==> tmpdir_in(vstd::utf8::encode_utf8("TMUX_TMPDIR="@ + dir)) == Some(dir),
        tmpdir_in(vstd::utf8::encode_utf8("TMUX_TMPDIR="@)) is None,
{
    let key = vstd::utf8::encode_utf8("TMUX_TMPDIR="@);
    let value = vstd::utf8::encode_utf8(dir);
    encoding_of_parts("TMUX_TMPDIR="@, dir);
    assert((key + value).skip(key.len() as int) =~= value);
    assert((key + value).subrange(0, key.len() as int) =~= key);
    vstd::utf8::encode_utf8_valid_utf8(dir);
    vstd::utf8::encode_utf8_decode_utf8(dir);
    if dir.len() > 0 {
        if value.len() == 0 {
            vstd::utf8::encode_utf8_decode_utf8(Seq::empty());
            assert(value =~= vstd::utf8::encode_utf8(Seq::empty()));
        }
    }
    assert(key.skip(key.len() as int) =~= Seq::empty());
}

/// Only a variable of that name, set to a text that is not empty, gives a directory.
pub proof fn other_variables_give_no_tmpdir(variable: Seq<u8>)
    ensures
        tmpdir_in(variable) is Some ==> tmpdir_in(variable)->0.len() > 0 && variable
            == vstd::utf8::encode_utf8("TMUX_TMPDIR="@ + tmpdir_in(variable)->0),
{
    let key = vstd::utf8::encode_utf8("TMUX_TMPDIR="@);
    let value = variable.skip(key.len() as int);
    if tmpdir_in(variable) is Some {
        vstd::utf8::decode_utf8_encode_utf8(value);
        encoding_of_parts("TMUX_TMPDIR="@, tmpdir_in(variable)->0);
        assert(variable =~= key + value);
        if tmpdir_in(variable)->0.len() == 0 {
            assert(value =~= Seq::empty());
        }
    }
}

/// The directories are those of the variables, in the order of the variables.
pub proof fn tmpdirs_keep_the_order(variables: Seq<Seq<u8>>, variable: Seq<u8>, dir: Seq<char>)
    ensures
        tmpdirs_in(Seq::empty()) == Seq::<Seq<char>>::empty(),
        tmpdir_in(variable) == Some(dir) ==> tmpdirs_in(variables.push(variable)) == tmpdirs_in(
            variables,
        ) + seq![dir],
        tmpdir_in(variable) is None ==> tmpdirs_in(variables.push(variable)) == tmpdirs_in(
            variables,
        ),
{
    assert(variables.push(variable).drop_last() =~= variables);
    assert(tmpdirs_in(variables).push(dir) =~= tmpdirs_in(variables) + seq![dir]);
}

/// The socket named explicitly comes first, then the first field of `TMUX`; what is empty or
/// not given is left out.
pub proof fn named_sockets_come_in_order(
    socket: Seq<char>,
    field: Seq<char>,
    rest: Seq<char>,
)
    requires
        socket.len() > 0,
        field.len() > 0,
        forall|k: int| 0 <= k < field.len() ==> #[trigger] field[k] != ',',
    ensures
        named_sockets(Some(socket), Some(field.push(',') + rest)) == seq![socket, field],
        named_sockets(Some(socket), Some(field)) == seq![socket, field],
        named_sockets(Some(socket), None) == seq![socket],
        named_sockets(None, Some(field.push(',') + rest)) == seq![field],
        named_sockets(None, Some(field)) == seq![field],
        named_sockets(Some(Seq::empty()), Some(field.push(',') + rest)) == seq![field],
        named_sockets(Some(Seq::empty()), Some(field)) == seq![field],
        named_sockets(Some(socket), Some(Seq::<char>::empty().push(',') + rest)) == seq![socket],
        named_sockets(Some(socket), Some(Seq::empty())) == seq![socket],
        named_sockets(None, Some(Seq::<char>::empty().push(',') + rest)) == Seq::<
            Seq<char>,
        >::empty(),
        named_sockets(Some(Seq::empty()), None) == Seq::<Seq<char>>::empty(),
        named_sockets(None, Some(Seq::empty())) == Seq::<Seq<char>>::empty(),
        named_sockets(None, None) == Seq::<Seq<char>>::empty(),
{
    text::part_ends_at_separator(field, ',', rest);
    text::part_ends_at_separator(Seq::empty(), ',', rest);
    assert(named_sockets(Some(socket), Some(field)) =~= seq![socket, field]);
    assert(named_sockets(Some(socket), None) =~= seq![socket]);
    assert(named_sockets(None, Some(field)) =~= seq![field]);
    assert(named_sockets(Some(Seq::empty()), Some(field)) =~= seq![field]);
    assert(named_sockets(Some(socket), Some(Seq::empty())) =~= seq![socket]);
    assert(named_sockets(None, Some(Seq::empty())) =~= Seq::empty());
    assert(named_sockets(Some(Seq::empty()), None) =~= Seq::empty());
    assert(named_sockets(None, None) =~= Seq::empty());
}

/// Sockets are looked for in `/tmp`, in the directory given, if it is not empty, and in
/// those of the running servers, and nowhere else.
pub proof fn bases_are_the_given_directories(
    tmux_tmpdir: Option<Seq<char>>,
    running: Seq<Seq<char>>,
    dir: Seq<char>,
)
    ensures
        bases(tmux_tmpdir, running).contains(dir) <==> dir == "/tmp"@ || (tmux_tmpdir == Some(dir)
            && dir.len() > 0) || running.contains(dir),
{
    let all = bases(tmux_tmpdir, running);
    let given = if_given(tmux_tmpdir);
    if dir == "/tmp"@ {
        assert(all[given.len() as int] == dir);
    }
    if tmux_tmpdir == Some(dir) && dir.len() > 0 {
        assert(all[0] == dir);
    }
    if running.contains(dir) {
        let k = choose|k: int| 0 <= k < running.len() && running[k] == dir;
        assert(all[given.len() + 1 + k] == dir);
    }
    if all.contains(dir) {
        let k = choose|k: int| 0 <= k < all.len() && all[k] == dir;
        if k > given.len() {
            assert(running[k - given.len() - 1] == dir);
        }
    }
}

/// A search settles on the default socket if tmux answers there; otherwise on the first
/// candidate on which it answers, those before it having failed; and on none if it answers
/// nowhere.
pub proof fn search_settles_on_the_first_that_answers(
    search: Search,
    answers: spec_fn(Option<Seq<char>>) -> bool,
    i: int,
)
    requires
        search.failures() == 0,
    ensures
        search.next() is None,
        answers(None) ==> search.verdict(answers) == Verdict::Bare,
        !answers(None) && 0 <= i < search.sockets().len() && answers(Some(search.sockets()[i])) && (
        forall|k: int| 0 <= k < i ==> !answers(Some(#[trigger] search.sockets()[k])))
            ==> search.verdict(answers) == Verdict::Socket(search.sockets()[i]),
        !answers(None) && (forall|k: int|
            0 <= k < search.sockets().len() ==> !answers(Some(#[trigger] search.sockets()[k])))
            ==> search.verdict(answers) == Verdict::Unreachable,
{
    let sockets = search.sockets();
    if 0 <= i < sockets.len() && answers(Some(sockets[i])) && (forall|k: int|
        0 <= k < i ==> !answers(Some(#[trigger] sockets[k]))) {
        first_answer_from(sockets, 0, i, answers);
    }
    if forall|k: int| 0 <= k < sockets.len() ==> !answers(Some(#[trigger] sockets[k])) {
        no_answer_from(sockets, 0, answers);
    }
}

/// After as many failures the candidate with that number is tried, the first one being
/// tried after the default socket.
pub proof fn candidates_are_tried_in_order(search: Search)
    requires
        0 < search.failures() <= search.sockets().len(),
    ensures
        search.next() == Some(search.sockets()[search.failures() - 1]),
{
}

/// The contents of a choice.
pub proof fn verdict_holds_the_path(path: String)
    ensures
        Choice::Bare@ == Verdict::Bare,
        Choice::Socket(path)@ == Verdict::Socket(path@),
        Choice::Unreachable@ == Verdict::Unreachable,
{
}

proof fn first_answer_from(
    sockets: Seq<Seq<char>>,
    from: int,
    i: int,
    answers: spec_fn(Option<Seq<char>>) -> bool,
)
    requires
        0 <= from <= i < sockets.len(),
        answers(Some(sockets[i])),
        forall|k: int| from <= k < i ==> !answers(Some(#[trigger] sockets[k])),
    ensures
        first_answering(sockets, from, answers) == Verdict::Socket(sockets[i]),
    decreases i - from,
{
    if from < i {
        first_answer_from(sockets, from + 1, i, answers);
    }
}

proof fn no_answer_from(
    sockets: Seq<Seq<char>>,
    from: int,
    answers: spec_fn(Option<Seq<char>>) -> bool,
)
    requires
        0 <= from <= sockets.len(),
        forall|k: int| from <= k < sockets.len() ==> !answers(Some(#[trigger] sockets[k])),
    ensures
        first_answering(sockets, from, answers) == Verdict::Unreachable,
    decreases sockets.len() - from,
{
    if from < sockets.len() {
        no_answer_from(sockets, from + 1, answers);
    }
}

/// Failures are reported if `TOUCH_DEBUG` is set, to anything but nothing and `0`.
pub proof fn debugging_is_asked_for(value: Option<&str>, r: bool)
    requires
        call_ensures(debug_on, (value,), r),
    ensures
        value is None ==> !r,
        value is Some ==> (r <==> value->0@.len() > 0 && value->0@ != "0"@),
{
}

/// A call of tmux hands on all the arguments in their order, after the socket, if there is one.
pub proof fn arguments_follow_the_socket(
    socket: Option<&str>,
    extra: &[&str],
    args: Vec<String>,
    k: int,
)
    requires
        call_ensures(full_args, (socket, extra), args),
    ensures
        socket is None ==> args@.len() == extra@.len(),
        socket is None && 0 <= k < extra@.len() ==> args@[k]@ == extra@[k]@,
        socket is Some ==> args@.len() == extra@.len() + 2 && args@[0]@ == "-S"@ && args@[1]@
            == socket->0@,
        socket is Some && 0 <= k < extra@.len() ==> args@[k + 2]@ == extra@[k]@,
{
    let all = text::texts(args@);
    assert(all.len() == args@.len());
    assert(forall|j: int| 0 <= j < args@.len() ==> #[trigger] all[j] == args@[j]@);
    if 0 <= k < extra@.len() {
        assert(text::slices(extra@)[k] == extra@[k]@);
        if socket is None {
            assert(all[k] == args@[k]@);
        } else {
            assert(all[k + 2] == args@[k + 2]@);
        }
    }
    if socket is Some {
        assert(all[0] == args@[0]@ && all[1] == args@[1]@);
    }
}

/// A socket is probed by listing the sessions on it.
pub proof fn probing_lists_the_sessions(socket: Option<&str>, args: Vec<String>)
    requires
        call_ensures(probe_args, (socket,), args),
    ensures
        socket is None ==> args@.len() == 1 && args@[0]@ == "list-sessions"@,
        socket is Some ==> args@.len() == 3 && args@[0]@ == "-S"@ && args@[1]@ == socket->0@
            && args@[2]@ == "list-sessions"@,
{
    let all = text::texts(args@);
    assert(all.len() == args@.len());
    assert(all[0] == args@[0]@);
    if socket is Some {
        assert(all[1] == args@[1]@ && all[2] == args@[2]@);
    }
}

/// The status line is turned on or off by the global option `status`.
pub proof fn status_line_is_switched(on: bool, args: Vec<&'static str>)
    requires
        call_ensures(status_line_args, (on,), args),
    ensures
        args@.len() == 4,
        args@[0]@ == "set"@,
        args@[1]@ == "-g"@,
        args@[2]@ == "status"@,
        on ==> args@[3]@ == "on"@,
        !on ==> args@[3]@ == "off"@,
{
    let all = text::slices(args@);
    assert(all.len() == args@.len());
    assert(all[0] == args@[0]@ && all[1] == args@[1]@ && all[2] == args@[2]@ && all[3]
        == args@[3]@);
}

/// A call of tmux that was not started, or that did not succeed, has failed and printed
/// nothing.
pub proof fn failed_call_prints_nothing(outcome: Outcome, failed: bool, printed: String)
    requires
        call_ensures(Outcome::failed, (&outcome,), failed),
        call_ensures(Outcome::captured, (outcome,), printed),
    ensures
        outcome is NotStarted ==> failed,
        outcome is Finished ==> failed == !outcome->success,
        failed ==> printed@.len() == 0,
{
}

/// The text that a successful call of tmux printed is captured as it is.
pub proof fn printed_text_is_captured(stdout: Vec<u8>, text: Seq<char>, printed: String)
    requires
        call_ensures(Outcome::captured, (Outcome::Finished { success: true, stdout },), printed),
        stdout@ == vstd::utf8::encode_utf8(text),
    ensures
        printed@ == text,
{
    vstd::utf8::encode_utf8_valid_utf8(text);
    vstd::utf8::encode_utf8_decode_utf8(text);
}

/// A process is a tmux server if its name, apart from white space in front, begins with
/// `tmux`.
pub proof fn tmux_is_known_by_its_name(comm: &str, blanks: Seq<char>, name: Seq<char>, r: bool)
    requires
        call_ensures(is_tmux_process, (comm,), r),
        comm@ == blanks + name,
        forall|k: int| 0 <= k < blanks.len() ==> text::blank(#[trigger] blanks[k]),
        name.len() > 0 ==> !text::blank(name[0]),
    ensures
        r <==> name.len() >= 4 && name[0] == 't' && name[1] == 'm' && name[2] == 'u' && name[3]
            == 'x',
{
    reveal_strlit("tmux");
    text::trimming_removes_leading_blanks(blanks, name);
    if r {
        assert(name.subrange(0, 4)[0] == name[0]);
        assert(name.subrange(0, 4)[1] == name[1]);
        assert(name.subrange(0, 4)[2] == name[2]);
        assert(name.subrange(0, 4)[3] == name[3]);
    }
    if name.len() >= 4 && name[0] == 't' && name[1] == 'm' && name[2] == 'u' && name[3] == 'x' {
        assert(name.subrange(0, 4) =~= "tmux"@);
    }
}

/// A directory may hold sockets if its name begins with `tmux-`.
pub proof fn socket_dir_is_known_by_its_name(name: &str, r: bool)
    requires
        call_ensures(is_socket_dir, (name,), r),
    ensures
        r <==> name@.len() >= 5 && name@[0] == 't' && name@[1] == 'm' && name@[2] == 'u' && name@[3]
            == 'x' && name@[4] == '-',
{
    reveal_strlit("tmux-");
    if r {
        assert(name@.subrange(0, 5)[0] == name@[0]);
        assert(name@.subrange(0, 5)[1] == name@[1]);
        assert(name@.subrange(0, 5)[2] == name@[2]);
        assert(name@.subrange(0, 5)[3] == name@[3]);
        assert(name@.subrange(0, 5)[4] == name@[4]);
    }
    if name@.len() >= 5 && name@[0] == 't' && name@[1] == 'm' && name@[2] == 'u' && name@[3] == 'x'
        && name@[4] == '-' {
        assert(name@.subrange(0, 5) =~= "tmux-"@);
    }
}

proof fn tmpdirs_of_both_parts(a: Seq<Seq<u8>>, b: Seq<Seq<u8>>)
    ensures
        tmpdirs_in(a + b) == tmpdirs_in(a) + tmpdirs_in(b),
    decreases b.len(),
{
    if b.len() == 0 {
        assert(a + b =~= a);
        assert(tmpdirs_in(a) + tmpdirs_in(b) =~= tmpdirs_in(a));
    } else {
        assert((a + b).drop_last() =~= a + b.drop_last());
        tmpdirs_of_both_parts(a, b.drop_last());
        assert(tmpdirs_in(a + b) =~= tmpdirs_in(a) + tmpdirs_in(b));
    }
}

/// The directories set in an environment are those set in what is before a zero byte of it,
/// followed by those set in what is after that byte.
pub proof fn environment_is_read_part_by_part(
    environ: &[u8],
    before: &[u8],
    after: &[u8],
    dirs: Vec<String>,
    first: Vec<String>,
    last: Vec<String>,
)
    requires
        environ@ == before@.push(0u8) + after@,
        call_ensures(tmpdirs_from_environ, (environ,), dirs),
        call_ensures(tmpdirs_from_environ, (before,), first),
        call_ensures(tmpdirs_from_environ, (after,), last),
    ensures
        text::texts(dirs@) == text::texts(first@) + text::texts(last@),
{
    text::separator_parts_a_list(before@, 0u8, after@);
    tmpdirs_of_both_parts(text::pieces(before@, 0u8), text::pieces(after@, 0u8));
}

/// A single variable of an environment sets the directory that it gives `TMUX_TMPDIR` as a
/// value, if that is not empty; any other variable sets none.
pub proof fn variable_sets_its_directory(variable: &[u8], dir: Seq<char>, dirs: Vec<String>)
    requires
        forall|k: int| 0 <= k < variable@.len() ==> #[trigger] variable@[k] != 0u8,
        call_ensures(tmpdirs_from_environ, (variable,), dirs),
    ensures
        dir.len() > 0 && variable@ == vstd::utf8::encode_utf8("TMUX_TMPDIR="@ + dir)
            ==> dirs@.len() == 1 && dirs@[0]@ == dir,
        dirs@.len() > 0 ==> dirs@.len() == 1 && dirs@[0]@.len() > 0 && variable@
            == vstd::utf8::encode_utf8("TMUX_TMPDIR="@ + dirs@[0]@),
{
    text::unseparated_list_is_one_piece(variable@, 0u8);
    assert(Seq::<Seq<u8>>::empty().push(variable@) =~= seq![variable@]);
    tmpdirs_keep_the_order(Seq::empty(), variable@, dir);
    tmpdir_is_what_the_variable_is_set_to(dir);
    other_variables_give_no_tmpdir(variable@);
    let all = text::texts(dirs@);
    assert(all.len() == dirs@.len());
    if tmpdir_in(variable@) is Some {
        tmpdirs_keep_the_order(Seq::empty(), variable@, tmpdir_in(variable@)->0);
        assert(all[0] == dirs@[0]@);
    }
}

/// Sockets are looked for in `/tmp`, in the directory given, if it is not empty, and in those
/// of the running servers; each of these is listed once, in the order of a dictionary.
pub proof fn directories_are_listed_in_order(
    tmux_tmpdir: Option<&str>,
    running: &Vec<String>,
    r: Vec<String>,
    dir: Seq<char>,
    i: int,
    j: int,
)
    requires
        call_ensures(search_bases, (tmux_tmpdir, running), r),
    ensures
        text::texts(r@).contains(dir) <==> dir == "/tmp"@ || (tmux_tmpdir is Some
            && tmux_tmpdir->0@ == dir && dir.len() > 0) || text::texts(running@).contains(dir),
        0 <= i < j < r@.len() ==> r@[i]@ != r@[j]@ && text::precedes(r@[i]@, r@[j]@),
{
    bases_are_the_given_directories(text::text_of(tmux_tmpdir), text::texts(running@), dir);
    assert(text::texts(r@).contains(dir) <==> bases(
        text::text_of(tmux_tmpdir),
        text::texts(running@),
    ).contains(dir));
    if 0 <= i < j < r@.len() {
        text::ordered_list_is_ordered(text::texts(r@), i, j);
    }
}

/// The sockets named by the environment are tried before those found, `TOUCH_TMUX_SOCKET`
/// first; where no two neighbours are equal, nothing is left out.
pub proof fn named_sockets_are_tried_first(
    socket: &str,
    tmux: &str,
    field: Seq<char>,
    rest: Seq<char>,
    found: &Vec<String>,
    r: Vec<String>,
)
    requires
        call_ensures(candidates, (Some(socket), Some(tmux), found), r),
        socket@.len() > 0,
        field.len() > 0,
        forall|k: int| 0 <= k < field.len() ==> #[trigger] field[k] != ',',
        tmux@ == field || tmux@ == field.push(',') + rest,
        socket@ != field,
        found@.len() > 0 ==> found@[0]@ != field,
        forall|k: int| 0 <= k < found@.len() - 1 ==> (#[trigger] found@[k])@ != found@[k + 1]@,
    ensures
        text::texts(r@) == seq![socket@, field] + text::texts(found@),
{
    named_sockets_come_in_order(socket@, field, rest);
    let all = seq![socket@, field] + text::texts(found@);
    assert forall|k: int| 0 <= k < all.len() - 1 implies #[trigger] all[k] != all[k + 1] by {
        if k >= 2 {
            assert(all[k] == found@[k - 2]@);
            assert(all[k + 1] == found@[k - 2 + 1]@);
        }
    }
    text::list_without_repeats_is_kept(all);
}

/// The sockets to be tried are `first`, `second` and those found, without immediate
/// repetitions, where `first` holds the value of `TOUCH_TMUX_SOCKET` and `second` the part of
/// that of `TMUX` before a comma, each unless it is not given or empty.
pub proof fn named_and_found_sockets_are_tried(
    socket: Option<&str>,
    tmux: Option<&str>,
    found: &Vec<String>,
    r: Vec<String>,
    first: Seq<Seq<char>>,
    second: Seq<Seq<char>>,
    field: Seq<char>,
    rest: Seq<char>,
)
    requires
        call_ensures(candidates, (socket, tmux, found), r),
        socket is None || socket->0@.len() == 0 ==> first.len() == 0,
        socket is Some && socket->0@.len() > 0 ==> first == seq![socket->0@],
        tmux is Some ==> tmux->0@ == field || tmux->0@ == field.push(',') + rest,
        forall|k: int| 0 <= k < field.len() ==> #[trigger] field[k] != ',',
        tmux is None || field.len() == 0 ==> second.len() == 0,
        tmux is Some && field.len() > 0 ==> second == seq![field],
    ensures
        text::texts(r@) == text::without_repeats(first + second + text::texts(found@)),
{
    text::part_ends_at_separator(field, ',', rest);
    assert(named_sockets(text::text_of(socket), text::text_of(tmux)) =~= first + second);
}

/// A search begins with the default socket, and is over if tmux answers there. Otherwise it
/// goes on with the first candidate, or is over without one if there are none.
pub proof fn search_begins_with_the_default_socket(
    candidates: Vec<String>,
    search: Search,
    pending: Option<&str>,
    answered: bool,
    r: Result<Choice, Search>,
)
    requires
        call_ensures(Search::new, (candidates,), search),
        call_ensures(Search::pending, (&search,), pending),
        call_ensures(Search::advance, (search, answered), r),
    ensures
        pending is None,
        answered ==> r is Ok && r->Ok_0@ == Verdict::Bare,
        !answered && candidates@.len() == 0 ==> r is Ok && r->Ok_0@ == Verdict::Unreachable,
        !answered && candidates@.len() > 0 ==> r is Err && r->Err_0.sockets() == text::texts(
            candidates@,
        ) && r->Err_0.failures() == 1,
{
    assert(text::texts(candidates@).len() == candidates@.len());
}

/// Later on a search settles on the pending candidate if tmux answers there. Otherwise it goes
/// on with the next candidate, or is over without one after the last.
pub proof fn search_goes_on_to_the_next_candidate(
    search: Search,
    n: int,
    pending: Option<&str>,
    answered: bool,
    r: Result<Choice, Search>,
)
    requires
        search.failures() == n,
        0 < n <= search.sockets().len(),
        call_ensures(Search::pending, (&search,), pending),
        call_ensures(Search::advance, (search, answered), r),
    ensures
        pending is Some,
        pending->0@ == search.sockets()[n - 1],
        answered ==> r is Ok && r->Ok_0@ == Verdict::Socket(search.sockets()[n - 1]),
        !answered && n == search.sockets().len() ==> r is Ok && r->Ok_0@ == Verdict::Unreachable,
        !answered && n < search.sockets().len() ==> r is Err && r->Err_0.sockets()
            == search.sockets() && r->Err_0.failures() == n + 1,
{
}

} // verus!
