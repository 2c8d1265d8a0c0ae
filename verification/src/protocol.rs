//! The messages exchanged between the server and its clients (JSON Lines over a
//! Unix socket), and the rectangles they speak of.
//!
//! The server never touches pixels. It only tells each client whether it may be
//! shown, and which parts of its region belong to a client above it.
use crate::text;
use vstd::prelude::*;

verus! {

/// The first line a client sends.
///
/// `hello` is the client's name, which is the name of its layer. If it is the name of a
/// scene, that scene is in force while the client stays connected.
///
/// `session` is the tmux session (such as `$0`) the client is bound to: it is then shown
/// only while that session is the active one.
///
/// `rect` is the region the client draws in. Clients that declare one are kept from
/// drawing over each other; clients that declare none neither lose nor take any area.
#[derive(Debug, Clone)]
pub struct Hello {
    pub hello: String,
    pub session: Option<String>,
    pub rect: Option<Rect>,
}

/// What the server tells a client.
///
/// `reason` is `"session"` where the scene allows the client and only its session keeps
/// it hidden. `clip` lists the areas the client must not draw in, because they belong to
/// a client above it. `scene` is the scene in force.
#[derive(Debug, Clone, PartialEq, Eq)]
pub struct Visible {
    pub visible: bool,
    pub reason: Option<String>,
    pub clip: Vec<Rect>,
    pub scene: Option<String>,
}

/// The contents of a [`Visible`].
#[verifier::ext_equal]
pub struct Notice {
    pub visible: bool,
    pub reason: Option<Seq<char>>,
    pub clip: Seq<Rect>,
    pub scene: Option<Seq<char>>,
}

impl View for Visible {
    type V = Notice;

    open spec fn view(&self) -> Notice {
        Notice {
            visible: self.visible,
            reason: text::string_of(self.reason),
            clip: self.clip@,
            scene: text::string_of(self.scene),
        }
    }
}

/// A line a client may send after its hello whenever its region changes. Without a
/// `rect` the declaration is withdrawn.
#[derive(Debug, Clone)]
pub struct RectUpdate {
    pub rect: Option<Rect>,
}

/// The name reserved for status queries: a client that says hello with it is told the
/// scene and the connected clients, and is not registered.
pub const STATUS_QUERY_NAME: &'static str = "__status__";

/// The answer to a status query.
#[derive(Debug, Clone)]
pub struct StatusReply {
    pub scene: String,
    pub clients: Vec<String>,
    pub active_session: Option<String>,
}

/// The contents of a [`StatusReply`].
#[verifier::ext_equal]
pub struct Status {
    pub scene: Seq<char>,
    pub clients: Seq<Seq<char>>,
    pub active_session: Option<Seq<char>>,
}

impl View for StatusReply {
    type V = Status;

    open spec fn view(&self) -> Status {
        Status {
            scene: self.scene@,
            clients: text::texts(self.clients@),
            active_session: text::string_of(self.active_session),
        }
    }
}

/// A rectangle of the framebuffer, in pixels, with the origin at the top left.
#[derive(Debug, Clone, Copy, PartialEq, Eq, Structural)]
pub struct Rect {
    pub x: u32,
    pub y: u32,
    pub w: u32,
    pub h: u32,
}

impl Rect {
    /// The first column to the right of the rectangle.
    pub open spec fn right(self) -> int {
        self.x + self.w
    }

    /// The first row below the rectangle.
    pub open spec fn bottom(self) -> int {
        self.y + self.h
    }

    /// Whether the pixel in column `px` and row `py` belongs to the rectangle.
    pub open spec fn covers(self, px: int, py: int) -> bool {
        &&& self.x <= px < self.right()
        &&& self.y <= py < self.bottom()
    }

    /// The area two rectangles have in common, if it holds any pixel.
    pub open spec fn overlap(self, other: Rect) -> Option<Rect> {
        let left = larger(self.x as int, other.x as int);
        let top = larger(self.y as int, other.y as int);
        let right = smaller(self.right(), other.right());
        let bottom = smaller(self.bottom(), other.bottom());
        if left < right && top < bottom {
            Some(
                Rect {
                    x: left as u32,
                    y: top as u32,
                    w: (right - left) as u32,
                    h: (bottom - top) as u32,
                },
            )
        } else {
            None
        }
    }

    /// The part two rectangles have in common, or `None` where they share no pixel
    /// (this includes empty rectangles and rectangles that merely touch).
    ///
    /// A rectangle may reach past the largest coordinate: its far edges are computed
    /// with the full width of `u64`.
    pub fn intersect(&self, other: &Rect) -> (r: Option<Rect>)
        ensures
            r == self.overlap(*other),
            match r {
                Some(common) => common.w > 0 && common.h > 0 && forall|px: int, py: int| #[trigger]
                    common.covers(px, py) <==> self.covers(px, py) && other.covers(px, py),
                None => forall|px: int, py: int|
                    !(#[trigger] self.covers(px, py) && other.covers(px, py)),
            },
    {
        let x0: u32 = if self.x >= other.x {
            self.x
        } else {
            other.x
        };
        let y0: u32 = if self.y >= other.y {
            self.y
        } else {
            other.y
        };
        let self_right: u64 = self.x as u64 + self.w as u64;
        let other_right: u64 = other.x as u64 + other.w as u64;
        let self_bottom: u64 = self.y as u64 + self.h as u64;
        let other_bottom: u64 = other.y as u64 + other.h as u64;
        let x1: u64 = if self_right <= other_right {
            self_right
        } else {
            other_right
        };
        let y1: u64 = if self_bottom <= other_bottom {
            self_bottom
        } else {
            other_bottom
        };
        if x1 > x0 as u64 && y1 > y0 as u64 {
            Some(Rect { x: x0, y: y0, w: (x1 - x0 as u64) as u32, h: (y1 - y0 as u64) as u32 })
        } else {
            None
        }
    }
}

/// The larger of two numbers.
pub open spec fn larger(a: int, b: int) -> int {
    if a >= b {
        a
    } else {
        b
    }
}

/// The smaller of two numbers.
pub open spec fn smaller(a: int, b: int) -> int {
    if a <= b {
        a
    } else {
        b
    }
}

/// Overlapping is symmetric: it does not matter which of two rectangles is asked.
pub proof fn overlap_is_symmetric(a: Rect, b: Rect)
    ensures
        a.overlap(b) == b.overlap(a),
{
}

/// The common area of two rectangles holds exactly the pixels that both of them
/// hold, and there is none where they share no pixel.
pub proof fn overlap_is_common_area(a: Rect, b: Rect)
    ensures
        match a.overlap(b) {
            Some(common) => forall|px: int, py: int| #[trigger]
                common.covers(px, py) <==> a.covers(px, py) && b.covers(px, py),
            None => forall|px: int, py: int| !(#[trigger] a.covers(px, py) && b.covers(px, py)),
        },
{
}

/// Its pixels determine a rectangle: two rectangles that hold the same pixels, and at
/// least one, are the same.
pub proof fn pixels_determine_rect(a: Rect, b: Rect)
    requires
        a.w > 0,
        a.h > 0,
        forall|px: int, py: int| a.covers(px, py) <==> b.covers(px, py),
    ensures
        a == b,
{
    assert(a.covers(a.x as int, a.y as int));
    assert(b.covers(a.x as int, a.y as int));
    assert(a.covers(a.right() - 1, a.bottom() - 1));
    assert(b.covers(a.right() - 1, a.bottom() - 1));
    assert(b.covers(b.x as int, b.y as int));
    assert(a.covers(b.x as int, b.y as int));
    assert(b.covers(b.right() - 1, b.bottom() - 1));
    assert(a.covers(b.right() - 1, b.bottom() - 1));
}

/// Where the server listens, given the values of `FB_SERVER_SOCK` and `XDG_RUNTIME_DIR`.
/// Either counts only if it is not empty.
pub open spec fn socket_location(
    explicit: Option<Seq<char>>,
    runtime_dir: Option<Seq<char>>,
) -> Seq<char> {
    if explicit is Some && explicit->0.len() > 0 {
        explicit->0
    } else if runtime_dir is Some && runtime_dir->0.len() > 0 {
        runtime_dir->0 + "/fb-server.sock"@
    } else {
        "/tmp/fb-server.sock"@
    }
}

/// The path of the socket, given the values of the environment variables
/// `FB_SERVER_SOCK` and `XDG_RUNTIME_DIR`, in the order in which they count.
pub fn socket_path(fb_server_sock: Option<&str>, xdg_runtime_dir: Option<&str>) -> (r: String)
    ensures
        r@ == socket_location(text::text_of(fb_server_sock), text::text_of(xdg_runtime_dir)),
{
    if let Some(path) = fb_server_sock {
        if !path.is_empty() {
            return path.to_owned();
        }
    }
    match xdg_runtime_dir {
        Some(dir) if !dir.is_empty() => {
            let mut path: String = dir.to_owned();
            path.append("/fb-server.sock");
            path
        },
        _ => "/tmp/fb-server.sock".to_owned(),
    }
}

/// Turns a serialised message into a line.
pub fn frame(message: String) -> (line: String)
    ensures
        line@ == message@.push('\n'),
{
    let mut line: String = message;
    let ghost before = line@;
    line.append("\n");
    proof {
        reveal_strlit("\n");
        assert(line@ =~= before.push('\n'));
    }
    line
}

/// A pixel belongs to a rectangle if its column is one of the `w` columns from `x` on and
/// its row one of the `h` rows from `y` on.
pub proof fn rect_covers_its_columns_and_rows(r: Rect, px: int, py: int)
    ensures
        r.covers(px, py) <==> 0 <= px - r.x < r.w && 0 <= py - r.y < r.h,
{
}

/// A pixel lies in the overlap of two rectangles exactly if its coordinates lie in both; an
/// overlap that is reported is not empty.
pub proof fn overlap_by_coordinates(a: Rect, b: Rect, px: int, py: int)
    ensures
        (a.overlap(b) is Some && 0 <= px - a.overlap(b)->0.x < a.overlap(b)->0.w && 0 <= py
            - a.overlap(b)->0.y < a.overlap(b)->0.h) <==> (0 <= px - a.x < a.w && 0 <= py - a.y
            < a.h && 0 <= px - b.x < b.w && 0 <= py - b.y < b.h),
        a.overlap(b) is Some ==> a.overlap(b)->0.w > 0 && a.overlap(b)->0.h > 0,
{
}

/// The socket path that is given counts, if it is not empty. Otherwise the socket is in the
/// runtime directory, if one is given and not empty, and otherwise in `/tmp`.
pub proof fn socket_path_counts_in_order(
    path: Seq<char>,
    dir: Seq<char>,
    other: Option<Seq<char>>,
)
    ensures
        path.len() > 0 ==> socket_location(Some(path), other) == path,
        dir.len() > 0 ==> socket_location(None, Some(dir)) == dir + "/fb-server.sock"@,
        dir.len() > 0 ==> socket_location(Some(Seq::empty()), Some(dir)) == dir
            + "/fb-server.sock"@,
        socket_location(None, None) == "/tmp/fb-server.sock"@,
        socket_location(None, Some(Seq::empty())) == "/tmp/fb-server.sock"@,
        socket_location(Some(Seq::empty()), None) == "/tmp/fb-server.sock"@,
        socket_location(Some(Seq::empty()), Some(Seq::empty())) == "/tmp/fb-server.sock"@,
{
}

/// The contents of a message are those of its fields.
pub proof fn notice_holds_the_fields(message: Visible)
    ensures
        message@.visible == message.visible,
        message@.clip == message.clip@,
        message@.reason is Some <==> message.reason is Some,
        message.reason is Some ==> message@.reason->0 == message.reason->0@,
        message@.scene is Some <==> message.scene is Some,
        message.scene is Some ==> message@.scene->0 == message.scene->0@,
{
}

/// The contents of a status reply are those of its fields.
pub proof fn status_holds_the_fields(reply: StatusReply, k: int)
    ensures
        reply@.scene == reply.scene@,
        reply@.clients.len() == reply.clients@.len(),
        0 <= k < reply.clients@.len() ==> reply@.clients[k] == reply.clients@[k]@,
        reply@.active_session is Some <==> reply.active_session is Some,
        reply.active_session is Some ==> reply@.active_session->0 == reply.active_session->0@,
{
}

/// The name reserved for status queries.
pub proof fn status_query_name_is_reserved()
    ensures
        STATUS_QUERY_NAME@ == "__status__"@,
{
}

/// Intersecting two rectangles gives a rectangle exactly if they share a pixel, and then the
/// one that holds the pixels they share and no others.
pub proof fn intersection_holds_the_shared_pixels(
    a: Rect,
    b: Rect,
    r: Option<Rect>,
    px: int,
    py: int,
)
    requires
        call_ensures(Rect::intersect, (&a, &b), r),
    ensures
        (0 <= px - a.x < a.w && 0 <= py - a.y < a.h && 0 <= px - b.x < b.w && 0 <= py - b.y < b.h)
            <==> (r is Some && 0 <= px - r->0.x < r->0.w && 0 <= py - r->0.y < r->0.h),
        r is Some ==> r->0.w > 0 && r->0.h > 0,
{
    overlap_by_coordinates(a, b, px, py);
}

/// A framed message is the message followed by the end of the line.
pub proof fn framing_ends_the_line(message: String, line: String, k: int)
    requires
        call_ensures(frame, (message,), line),
    ensures
        line@.len() == message@.len() + 1,
        0 <= k < message@.len() ==> line@[k] == message@[k],
        line@[message@.len() as int] == '\n',
{
}

/// The environment decides on the socket: `FB_SERVER_SOCK` comes before `XDG_RUNTIME_DIR`, and
/// what is empty counts as not given.
pub proof fn environment_decides_on_the_socket(
    sock: Option<&str>,
    dir: Option<&str>,
    r: String,
)
    requires
        call_ensures(socket_path, (sock, dir), r),
    ensures
        sock is Some && sock->0@.len() > 0 ==> r@ == sock->0@,
        (sock is None || sock->0@.len() == 0) && dir is Some && dir->0@.len() > 0 ==> r@
            == dir->0@ + "/fb-server.sock"@,
        (sock is None || sock->0@.len() == 0) && (dir is None || dir->0@.len() == 0) ==> r@
            == "/tmp/fb-server.sock"@,
{
}

} // verus!
