//! Which clients may be shown, and which parts of their regions they must leave alone.
use crate::protocol::{Notice, Rect, Visible};
use crate::text;
use vstd::prelude::*;

verus! {

/// What the arbitration knows of a client.
pub struct LayerInfo<'a> {
    pub id: u64,
    pub name: &'a str,
    /// The tmux session the client is bound to, if any.
    pub session: Option<&'a str>,
    /// The region the client draws in, if it declared one.
    pub rect: Option<Rect>,
}

/// A client, as the arbitration sees it.
pub struct Layer {
    pub id: u64,
    pub name: Seq<char>,
    pub session: Option<Seq<char>>,
    pub rect: Option<Rect>,
}

impl<'a> View for LayerInfo<'a> {
    type V = Layer;

    open spec fn view(&self) -> Layer {
        Layer {
            id: self.id,
            name: self.name@,
            session: text::text_of(self.session),
            rect: self.rect,
        }
    }
}

/// The clients in a list of descriptions.
pub open spec fn layers_in(infos: Seq<LayerInfo<'_>>) -> Seq<Layer> {
    infos.map_values(|c: LayerInfo<'_>| c@)
}

/// Everything the arbitration depends on: the connected clients, the layers the scene
/// allows from the topmost down, and the session tmux shows, where it is known.
pub struct Stage {
    pub clients: Seq<Layer>,
    pub layers: Seq<Seq<char>>,
    pub active: Option<Seq<char>>,
}

impl Stage {
    /// Whether `i` is one of the clients.
    pub open spec fn has(self, i: int) -> bool {
        0 <= i < self.clients.len()
    }

    /// The place of a client's layer in the scene; the number of layers if the scene
    /// does not allow it.
    pub open spec fn rank(self, i: int) -> int {
        text::position(self.layers, self.clients[i].name)
    }

    /// Whether the scene allows the client's layer.
    pub open spec fn allowed(self, i: int) -> bool {
        self.layers.contains(self.clients[i].name)
    }

    /// Whether the client is not bound to a session other than the active one. Where
    /// either of the two is unknown, nothing is held against the client.
    pub open spec fn session_matches(self, i: int) -> bool {
        match (self.clients[i].session, self.active) {
            (Some(bound), Some(active)) => bound == active,
            _ => true,
        }
    }

    /// Whether the client is shown.
    pub open spec fn shown(self, i: int) -> bool {
        self.allowed(i) && self.session_matches(i)
    }

    /// Whether client `i` takes precedence over client `j`: its layer stands earlier in
    /// the scene; within one layer the later connection goes first, and last of all the
    /// order of the list decides.
    pub open spec fn above(self, i: int, j: int) -> bool {
        ||| self.rank(i) < self.rank(j)
        ||| self.rank(i) == self.rank(j) && self.clients[i].id > self.clients[j].id
        ||| self.rank(i) == self.rank(j) && self.clients[i].id == self.clients[j].id && i < j
    }

    /// The area that client `j` takes away from client `i`.
    pub open spec fn occlusion(self, j: int, i: int) -> Option<Rect> {
        if self.shown(j) && self.shown(i) && self.above(j, i) {
            match (self.clients[j].rect, self.clients[i].rect) {
                (Some(upper), Some(lower)) => upper.overlap(lower),
                _ => None,
            }
        } else {
            None
        }
    }

    /// Whether `order` lists all the clients from the topmost down.
    pub open spec fn is_ranking(self, order: Seq<int>) -> bool {
        &&& order.len() == self.clients.len()
        &&& forall|a: int| 0 <= a < order.len() ==> self.has(#[trigger] order[a])
        &&& forall|a: int, b: int|
            0 <= a < b < order.len() ==> self.above(#[trigger] order[a], #[trigger] order[b])
    }

    /// The clients from the topmost down.
    pub open spec fn ranking(self) -> Seq<int> {
        choose|order: Seq<int>| self.is_ranking(order)
    }

    /// The areas that the clients of `order` take away from client `i`, in that order.
    pub open spec fn occlusions(self, order: Seq<int>, i: int) -> Seq<Rect>
        decreases order.len(),
    {
        if order.len() == 0 {
            Seq::empty()
        } else {
            let before = self.occlusions(order.drop_last(), i);
            match self.occlusion(order.last(), i) {
                Some(area) => before.push(area),
                None => before,
            }
        }
    }

    /// The areas client `i` must not draw in, the one of the topmost client first.
    pub open spec fn clip(self, i: int) -> Seq<Rect> {
        self.occlusions(self.ranking(), i)
    }

    /// Why the client is hidden, where that is told: only if the scene allows it and its
    /// session is not the active one.
    pub open spec fn reason(self, i: int) -> Option<Seq<char>> {
        if self.allowed(i) && !self.session_matches(i) {
            Some("session"@)
        } else {
            None
        }
    }

    /// What client `i` is told, but for the scene.
    pub open spec fn notice(self, i: int) -> Notice {
        Notice {
            visible: self.shown(i),
            reason: self.reason(i),
            clip: self.clip(i),
            scene: None,
        }
    }

    /// Whether client `i`, keeping to what it is told, may draw the pixel at `px`, `py`.
    pub open spec fn draws(self, i: int, px: int, py: int) -> bool {
        &&& self.shown(i)
        &&& self.clients[i].rect matches Some(r) && r.covers(px, py)
        &&& forall|k: int|
            0 <= k < self.clip(i).len() ==> !(#[trigger] self.clip(i)[k]).covers(px, py)
    }

    /// Whether client `i` is shown and its region holds the pixel at `px`, `py`.
    pub open spec fn claims(self, i: int, px: int, py: int) -> bool {
        &&& self.shown(i)
        &&& self.clients[i].rect matches Some(r) && r.covers(px, py)
    }
}

/// A ranking lists every client.
pub proof fn ranking_is_complete(stage: Stage, order: Seq<int>, i: int)
    requires
        stage.is_ranking(order),
        stage.has(i),
    ensures
        order.contains(i),
{
    let n = stage.clients.len() as int;
    let all = vstd::set_lib::set_int_range(0, n);
    assert(order.no_duplicates()) by {
        assert forall|a: int, b: int|
            0 <= a < order.len() && 0 <= b < order.len() && a != b implies order[a] != order[b] by {
            if a < b {
                assert(stage.above(order[a], order[b]));
            } else {
                assert(stage.above(order[b], order[a]));
            }
        }
    }
    order.unique_seq_to_set();
    vstd::set_lib::lemma_int_range(0, n);
    assert(order.to_set().subset_of(all));
    vstd::set_lib::lemma_subset_equality(order.to_set(), all);
    assert(order.to_set().contains(i));
}

/// There is only one way to rank the clients.
pub proof fn rankings_agree(stage: Stage, a: Seq<int>, b: Seq<int>)
    requires
        stage.is_ranking(a),
        stage.is_ranking(b),
    ensures
        a == b,
{
    assert forall|p: int| 0 <= p < a.len() implies #[trigger] a[p] == b[p] by {
        rankings_agree_up_to(stage, a, b, p);
    }
    assert(a =~= b);
}

proof fn rankings_agree_up_to(stage: Stage, a: Seq<int>, b: Seq<int>, p: int)
    requires
        stage.is_ranking(a),
        stage.is_ranking(b),
        0 <= p < a.len(),
    ensures
        a[p] == b[p],
    decreases p,
{
    assert forall|k: int| 0 <= k < p implies #[trigger] a[k] == b[k] by {
        rankings_agree_up_to(stage, a, b, k);
    }
    ranking_is_complete(stage, b, a[p]);
    ranking_is_complete(stage, a, b[p]);
    let q = choose|q: int| 0 <= q < b.len() && b[q] == a[p];
    let r = choose|r: int| 0 <= r < a.len() && a[r] == b[p];
    if q < p {
        assert(a[q] == b[q]);
        assert(stage.above(a[q], a[p]));
    } else if r < p {
        assert(a[r] == b[r]);
        assert(stage.above(b[r], b[p]));
    } else if q > p && r > p {
        assert(stage.above(b[p], b[q]));
        assert(stage.above(a[p], a[r]));
    }
}

/// What client `i` loses to the clients of `order` does not change by clients that are
/// not above it.
proof fn occlusions_stop(stage: Stage, order: Seq<int>, i: int, p: int, q: int)
    requires
        stage.is_ranking(order),
        0 <= p < q <= order.len(),
        order[p] == i,
    ensures
        stage.occlusions(order.take(q), i) == stage.occlusions(order.take(p), i),
    decreases q - p,
{
    let upto = order.take(q);
    assert(upto.drop_last() =~= order.take(q - 1));
    if q - 1 == p {
        assert(upto.last() == i);
    } else {
        assert(stage.above(order[p], order[q - 1]));
        occlusions_stop(stage, order, i, p, q - 1);
    }
}

/// A client that is hidden, or that declared no region, loses nothing.
proof fn no_occlusions(stage: Stage, order: Seq<int>, i: int)
    requires
        !stage.shown(i) || stage.clients[i].rect is None,
    ensures
        stage.occlusions(order, i) == Seq::<Rect>::empty(),
    decreases order.len(),
{
    if order.len() > 0 {
        no_occlusions(stage, order.drop_last(), i);
    }
}

impl<'a> LayerInfo<'a> {
    /// Whether the client is bound to no session other than the active one, as far as
    /// both are known.
    fn session_matches(&self, active: Option<&str>) -> (r: bool)
        ensures
            r == match (self@.session, text::text_of(active)) {
                (Some(bound), Some(active)) => bound == active,
                _ => true,
            },
    {
        match (self.session, active) {
            (Some(bound), Some(active)) => text::same(bound, active),
            _ => true,
        }
    }
}

/// Lists the clients from the topmost down.
fn rank_clients(infos: &[LayerInfo], ranks: &Vec<usize>, Ghost(stage): Ghost<Stage>) -> (order: Vec<
    usize,
>)
    requires
        stage.clients == layers_in(infos@),
        ranks@.len() == infos@.len(),
        forall|i: int| 0 <= i < infos@.len() ==> #[trigger] ranks@[i] == stage.rank(i),
    ensures
        stage.is_ranking(order@.map_values(|i: usize| i as int)),
{
    let n: usize = infos.len();
    let mut order: Vec<usize> = Vec::new();
    let mut k: usize = 0;
    while k < n
        invariant
            k <= n,
            n == infos@.len(),
            stage.clients == layers_in(infos@),
            ranks@.len() == infos@.len(),
            forall|i: int| 0 <= i < infos@.len() ==> #[trigger] ranks@[i] == stage.rank(i),
            order@.len() == k,
            forall|a: int| 0 <= a < k ==> #[trigger] order@[a] < k,
            forall|a: int, b: int|
                0 <= a < b < k ==> stage.above(
                    #[trigger] order@[a] as int,
                    #[trigger] order@[b] as int,
                ),
        decreases n - k,
    {
        let mut p: usize = k;
        while p > 0 && (ranks[k] < ranks[order[p - 1]] || (ranks[k] == ranks[order[p - 1]]
            && infos[k].id > infos[order[p - 1]].id))
            invariant
                p <= k,
                k < n,
                n == infos@.len(),
                stage.clients == layers_in(infos@),
                ranks@.len() == infos@.len(),
                forall|i: int| 0 <= i < infos@.len() ==> #[trigger] ranks@[i] == stage.rank(i),
                order@.len() == k,
                forall|a: int| 0 <= a < k ==> #[trigger] order@[a] < k,
                forall|a: int| p <= a < k ==> stage.above(k as int, #[trigger] order@[a] as int),
            decreases p,
        {
            p -= 1;
        }
        let ghost before = order@;
        proof {
            assert forall|a: int| 0 <= a < p implies stage.above(
                #[trigger] before[a] as int,
                k as int,
            ) by {
                assert(stage.above(before[p - 1] as int, k as int));
                if a < p - 1 {
                    assert(stage.above(before[a] as int, before[p - 1] as int));
                }
            }
        }
        order.insert(p, k);
        proof {
            assert forall|a: int, b: int| 0 <= a < b < k + 1 implies stage.above(
                #[trigger] order@[a] as int,
                #[trigger] order@[b] as int,
            ) by {
                if a < p {
                    assert(order@[a] == before[a]);
                } else if a > p {
                    assert(order@[a] == before[a - 1]);
                }
                if b < p {
                    assert(order@[b] == before[b]);
                } else if b > p {
                    assert(order@[b] == before[b - 1]);
                }
            }
            assert forall|a: int| 0 <= a < k + 1 implies #[trigger] order@[a] < k + 1 by {
                if a < p {
                    assert(order@[a] == before[a]);
                } else if a > p {
                    assert(order@[a] == before[a - 1]);
                }
            }
        }
        k += 1;
    }
    proof {
        let view = order@.map_values(|i: usize| i as int);
        assert forall|a: int| 0 <= a < view.len() implies stage.has(#[trigger] view[a]) by {
            assert(order@[a] < k);
        }
        assert forall|a: int, b: int| 0 <= a < b < view.len() implies stage.above(
            #[trigger] view[a],
            #[trigger] view[b],
        ) by {
            assert(stage.above(order@[a] as int, order@[b] as int));
        }
    }
    order
}

/// Collects the areas that client `i`, whose region is `region`, loses to the clients
/// above it.
fn clip_region(
    infos: &[LayerInfo],
    shown: &Vec<bool>,
    order: &Vec<usize>,
    i: usize,
    region: Rect,
    Ghost(stage): Ghost<Stage>,
) -> (clip: Vec<Rect>)
    requires
        stage.clients == layers_in(infos@),
        shown@.len() == infos@.len(),
        forall|j: int| 0 <= j < infos@.len() ==> #[trigger] shown@[j] == stage.shown(j),
        stage.is_ranking(order@.map_values(|j: usize| j as int)),
        i < infos@.len(),
        infos@[i as int].rect == Some(region),
        stage.shown(i as int),
    ensures
        clip@ == stage.occlusions(order@.map_values(|j: usize| j as int), i as int),
{
    let ghost ranking = order@.map_values(|j: usize| j as int);
    let ghost place = choose|p: int| 0 <= p < ranking.len() && ranking[p] == i;
    proof {
        ranking_is_complete(stage, ranking, i as int);
        assert(stage.clients[i as int] == infos@[i as int]@);
    }
    let mut clip: Vec<Rect> = Vec::new();
    let mut q: usize = 0;
    assert(ranking.take(0) =~= Seq::<int>::empty());
    while order[q] != i
        invariant
            ranking == order@.map_values(|j: usize| j as int),
            stage.clients == layers_in(infos@),
            shown@.len() == infos@.len(),
            forall|j: int| 0 <= j < infos@.len() ==> #[trigger] shown@[j] == stage.shown(j),
            stage.is_ranking(ranking),
            i < infos@.len(),
            stage.clients[i as int].rect == Some(region),
            stage.shown(i as int),
            0 <= place < ranking.len(),
            ranking[place] == i,
            q <= place,
            clip@ == stage.occlusions(ranking.take(q as int), i as int),
        decreases place - q,
    {
        let j: usize = order[q];
        proof {
            assert(ranking[q as int] == j);
            assert(stage.has(ranking[q as int]));
            assert(stage.above(ranking[q as int], ranking[place]));
            assert(stage.clients[j as int] == infos@[j as int]@);
            assert(ranking.take(q + 1).drop_last() =~= ranking.take(q as int));
            assert(ranking.take(q + 1).last() == j);
        }
        if shown[j] {
            if let Some(upper) = infos[j].rect {
                if let Some(area) = upper.intersect(&region) {
                    clip.push(area);
                }
            }
        }
        q += 1;
    }
    proof {
        assert(ranking[q as int] == i);
        occlusions_stop(stage, ranking, i as int, q as int, ranking.len() as int);
        assert(ranking.take(ranking.len() as int) =~= ranking);
    }
    clip
}

/// Computes what every client is told, in the order of `infos`.
///
/// 1. A client whose name is not among `layers` is hidden.
/// 2. A client bound to a session other than the active one is hidden, for the reason
///    `"session"`. While either session is unknown this does not apply.
/// 3. Every other client is shown. The order of `layers` is the precedence, the first
///    layer on top; among clients of one name the later connection is on top. A client
///    that declared its region is told to leave alone what it shares with the region of
///    any shown client above it.
pub fn compute_visibility(infos: &[LayerInfo], layers: &[String], active: Option<&str>) -> (out: Vec<
    Visible,
>)
    ensures
        out@.len() == infos@.len(),
        forall|i: int|
            0 <= i < infos@.len() ==> (#[trigger] out@[i])@ == (Stage {
                clients: layers_in(infos@),
                layers: text::texts(layers@),
                active: text::text_of(active),
            }).notice(i),
{
    let ghost stage = Stage {
        clients: layers_in(infos@),
        layers: text::texts(layers@),
        active: text::text_of(active),
    };
    let n: usize = infos.len();
    let mut ranks: Vec<usize> = Vec::new();
    let mut shown: Vec<bool> = Vec::new();
    let mut k: usize = 0;
    while k < n
        invariant
            k <= n,
            n == infos@.len(),
            stage.clients == layers_in(infos@),
            stage.layers == text::texts(layers@),
            stage.active == text::text_of(active),
            ranks@.len() == k,
            shown@.len() == k,
            forall|i: int| 0 <= i < k ==> #[trigger] ranks@[i] == stage.rank(i),
            forall|i: int| 0 <= i < k ==> #[trigger] shown@[i] == stage.shown(i),
        decreases n - k,
    {
        let rank: usize = text::find(layers, infos[k].name);
        let matches_session: bool = infos[k].session_matches(active);
        proof {
            text::position_is_first(stage.layers, infos@[k as int].name@);
            assert(stage.clients[k as int] == infos@[k as int]@);
        }
        ranks.push(rank);
        shown.push(rank < layers.len() && matches_session);
        k += 1;
    }
    let order: Vec<usize> = rank_clients(infos, &ranks, Ghost(stage));
    let ghost ranking = order@.map_values(|i: usize| i as int);
    proof {
        assert(stage.is_ranking(stage.ranking()));
        rankings_agree(stage, ranking, stage.ranking());
    }
    let mut out: Vec<Visible> = Vec::new();
    let mut i: usize = 0;
    while i < n
        invariant
            i <= n,
            n == infos@.len(),
            n == ranks@.len(),
            n == shown@.len(),
            stage.clients == layers_in(infos@),
            stage.layers == text::texts(layers@),
            stage.active == text::text_of(active),
            forall|j: int| 0 <= j < n ==> #[trigger] ranks@[j] == stage.rank(j),
            forall|j: int| 0 <= j < n ==> #[trigger] shown@[j] == stage.shown(j),
            ranking == order@.map_values(|j: usize| j as int),
            stage.is_ranking(ranking),
            ranking == stage.ranking(),
            out@.len() == i,
            forall|j: int| 0 <= j < i ==> (#[trigger] out@[j])@ == stage.notice(j),
        decreases n - i,
    {
        proof {
            assert(stage.clients[i as int] == infos@[i as int]@);
            text::position_is_first(stage.layers, infos@[i as int].name@);
        }
        let message: Visible = if shown[i] {
            let clip: Vec<Rect> = match infos[i].rect {
                Some(region) => clip_region(
                    infos,
                    &shown,
                    &order,
                    i,
                    region,
                    Ghost(stage),
                ),
                None => {
                    proof {
                        no_occlusions(stage, ranking, i as int);
                    }
                    Vec::new()
                },
            };
            Visible { visible: true, reason: None, clip, scene: None }
        } else {
            proof {
                no_occlusions(stage, ranking, i as int);
            }
            let reason: Option<String> = if ranks[i] < layers.len() {
                Some("session".to_owned())
            } else {
                None
            };
            Visible { visible: false, reason, clip: Vec::new(), scene: None }
        };
        assert(message@ =~= stage.notice(i as int));
        out.push(message);
        i += 1;
    }
    out
}

/// The first `k` clients can be listed from the topmost down.
proof fn some_clients_ranked(stage: Stage, k: int) -> (order: Seq<int>)
    requires
        0 <= k <= stage.clients.len(),
    ensures
        order.len() == k,
        forall|a: int| 0 <= a < k ==> 0 <= #[trigger] order[a] < k,
        forall|a: int, b: int|
            0 <= a < b < k ==> stage.above(#[trigger] order[a], #[trigger] order[b]),
    decreases k,
{
    if k == 0 {
        Seq::empty()
    } else {
        let before = some_clients_ranked(stage, k - 1);
        let p = place_for(stage, before, k - 1, k - 1);
        let order = before.insert(p, k - 1);
        assert forall|a: int| 0 <= a < k implies 0 <= #[trigger] order[a] < k by {
            assert(order[a] == if a < p {
                before[a]
            } else if a == p {
                k - 1
            } else {
                before[a - 1]
            });
        }
        assert forall|a: int, b: int| 0 <= a < b < k implies stage.above(
            #[trigger] order[a],
            #[trigger] order[b],
        ) by {
            if a > p {
                assert(order[a] == before[a - 1]);
            }
            if b > p {
                assert(order[b] == before[b - 1]);
            }
        }
        order
    }
}

/// There is a place in a list of clients, sorted from the topmost down, before which all
/// are above client `i`, and from which on all are below it.
proof fn place_for(stage: Stage, order: Seq<int>, i: int, upto: int) -> (p: int)
    requires
        0 <= upto <= order.len(),
        forall|a: int| 0 <= a < order.len() ==> #[trigger] order[a] != i,
        forall|a: int, b: int|
            0 <= a < b < order.len() ==> stage.above(#[trigger] order[a], #[trigger] order[b]),
        forall|a: int| upto <= a < order.len() ==> stage.above(i, #[trigger] order[a]),
    ensures
        0 <= p <= order.len(),
        forall|a: int| 0 <= a < p ==> stage.above(#[trigger] order[a], i),
        forall|a: int| p <= a < order.len() ==> stage.above(i, #[trigger] order[a]),
    decreases upto,
{
    if upto == 0 || stage.above(order[upto - 1], i) {
        assert forall|a: int| 0 <= a < upto implies stage.above(#[trigger] order[a], i) by {
            if a < upto - 1 {
                assert(stage.above(order[a], order[upto - 1]));
            }
        }
        upto
    } else {
        assert(order[upto - 1] != i);
        place_for(stage, order, i, upto - 1)
    }
}

/// The clients can always be ranked.
pub proof fn ranking_exists(stage: Stage)
    ensures
        stage.is_ranking(stage.ranking()),
{
    let order = some_clients_ranked(stage, stage.clients.len() as int);
    assert(stage.is_ranking(order));
}

/// A client loses an area exactly if some client of the list takes it.
proof fn occlusions_are_taken(stage: Stage, order: Seq<int>, i: int)
    ensures
        forall|area: Rect| #[trigger]
            stage.occlusions(order, i).contains(area) <==> exists|a: int|
                0 <= a < order.len() && stage.occlusion(#[trigger] order[a], i) == Some(area),
    decreases order.len(),
{
    if order.len() > 0 {
        let rest = order.drop_last();
        let before = stage.occlusions(rest, i);
        occlusions_are_taken(stage, rest, i);
        assert forall|area: Rect| #[trigger]
            stage.occlusions(order, i).contains(area) <==> exists|a: int|
                0 <= a < order.len() && stage.occlusion(#[trigger] order[a], i) == Some(area) by {
            if stage.occlusions(order, i).contains(area) {
                if before.contains(area) {
                    let a = choose|a: int|
                        0 <= a < rest.len() && stage.occlusion(#[trigger] rest[a], i) == Some(area);
                    assert(order[a] == rest[a]);
                } else {
                    assert(stage.occlusion(order[order.len() - 1], i) == Some(area));
                }
            }
            if exists|a: int|
                0 <= a < order.len() && stage.occlusion(#[trigger] order[a], i) == Some(area) {
                let a = choose|a: int|
                    0 <= a < order.len() && stage.occlusion(#[trigger] order[a], i) == Some(area);
                if a < rest.len() {
                    assert(rest[a] == order[a]);
                    assert(before.contains(area));
                    let b = choose|b: int| 0 <= b < before.len() && before[b] == area;
                    assert(stage.occlusions(order, i)[b] == area);
                } else {
                    assert(stage.occlusions(order, i).last() == area);
                }
            }
        }
    }
}

/// The areas a client must not draw in are exactly those it shares with the regions of
/// the shown clients above it.
pub proof fn clip_is_what_others_take(stage: Stage, i: int, area: Rect)
    requires
        stage.has(i),
    ensures
        stage.clip(i).contains(area) <==> exists|j: int|
            stage.has(j) && #[trigger] stage.occlusion(j, i) == Some(area),
{
    let order = stage.ranking();
    ranking_exists(stage);
    occlusions_are_taken(stage, order, i);
    if exists|j: int| stage.has(j) && #[trigger] stage.occlusion(j, i) == Some(area) {
        let j = choose|j: int| stage.has(j) && #[trigger] stage.occlusion(j, i) == Some(area);
        ranking_is_complete(stage, order, j);
        let a = choose|a: int| 0 <= a < order.len() && order[a] == j;
        assert(stage.occlusion(order[a], i) == Some(area));
    }
    if stage.clip(i).contains(area) {
        let a = choose|a: int|
            0 <= a < order.len() && stage.occlusion(#[trigger] order[a], i) == Some(area);
        assert(stage.has(order[a]));
    }
}

/// Every pixel belongs to the topmost of the shown clients whose regions hold it: that
/// client may draw it, and none of the others.
pub proof fn pixel_belongs_to_topmost(stage: Stage, i: int, px: int, py: int)
    requires
        stage.has(i),
    ensures
        stage.draws(i, px, py) <==> stage.claims(i, px, py) && forall|j: int|
            stage.has(j) && j != i && #[trigger] stage.claims(j, px, py) ==> stage.above(i, j),
{
    let clip = stage.clip(i);
    if stage.draws(i, px, py) {
        assert forall|j: int|
            stage.has(j) && j != i && #[trigger] stage.claims(j, px, py) implies stage.above(
            i,
            j,
        ) by {
            if stage.above(j, i) {
                let upper = stage.clients[j].rect->0;
                let lower = stage.clients[i].rect->0;
                crate::protocol::overlap_is_common_area(upper, lower);
                assert(upper.covers(px, py) && lower.covers(px, py));
                let area = upper.overlap(lower)->0;
                assert(stage.occlusion(j, i) == Some(area));
                clip_is_what_others_take(stage, i, area);
                let k = choose|k: int| 0 <= k < clip.len() && clip[k] == area;
                assert(clip[k].covers(px, py));
            }
        }
    }
    if stage.claims(i, px, py) && forall|j: int|
        stage.has(j) && j != i && #[trigger] stage.claims(j, px, py) ==> stage.above(i, j) {
        assert forall|k: int| 0 <= k < clip.len() implies !(#[trigger] clip[k]).covers(px, py) by {
            if clip[k].covers(px, py) {
                assert(clip.contains(clip[k]));
                clip_is_what_others_take(stage, i, clip[k]);
                let j = choose|j: int|
                    stage.has(j) && #[trigger] stage.occlusion(j, i) == Some(clip[k]);
                let upper = stage.clients[j].rect->0;
                let lower = stage.clients[i].rect->0;
                crate::protocol::overlap_is_common_area(upper, lower);
                assert(stage.claims(j, px, py));
            }
        }
    }
}

/// No pixel flickers: two clients that keep to what they are told never draw the same
/// pixel, as far as they declared their regions.
pub proof fn pixel_is_drawn_once(stage: Stage, i: int, j: int, px: int, py: int)
    requires
        stage.has(i),
        stage.has(j),
        i != j,
    ensures
        !(stage.draws(i, px, py) && stage.draws(j, px, py)),
{
    pixel_belongs_to_topmost(stage, i, px, py);
    pixel_belongs_to_topmost(stage, j, px, py);
    if stage.draws(i, px, py) && stage.draws(j, px, py) {
        assert(stage.claims(i, px, py) && stage.claims(j, px, py));
        assert(stage.above(i, j) && stage.above(j, i));
    }
}

/// No area is lost: a pixel that the region of a shown client holds may be drawn by some
/// shown client.
pub proof fn claimed_pixel_is_drawn(stage: Stage, i: int, px: int, py: int)
    requires
        stage.has(i),
        stage.claims(i, px, py),
    ensures
        exists|j: int| stage.has(j) && stage.draws(j, px, py),
{
    ranking_exists(stage);
    let order = stage.ranking();
    ranking_is_complete(stage, order, i);
    let p = choose|p: int| 0 <= p < order.len() && order[p] == i;
    topmost_claim(stage, order, p, px, py);
}

proof fn topmost_claim(stage: Stage, order: Seq<int>, p: int, px: int, py: int)
    requires
        stage.is_ranking(order),
        0 <= p < order.len(),
        stage.claims(order[p], px, py),
    ensures
        exists|j: int| stage.has(j) && stage.draws(j, px, py),
    decreases p,
{
    let i = order[p];
    if exists|q: int| 0 <= q < p && stage.claims(#[trigger] order[q], px, py) {
        let q = choose|q: int| 0 <= q < p && stage.claims(#[trigger] order[q], px, py);
        topmost_claim(stage, order, q, px, py);
    } else {
        assert forall|j: int|
            stage.has(j) && j != i && #[trigger] stage.claims(j, px, py) implies stage.above(
            i,
            j,
        ) by {
            ranking_is_complete(stage, order, j);
            let q = choose|q: int| 0 <= q < order.len() && order[q] == j;
            assert(stage.claims(order[q], px, py));
            assert(stage.above(order[p], order[q]));
        }
        pixel_belongs_to_topmost(stage, i, px, py);
        assert(stage.has(i) && stage.draws(i, px, py));
    }
}

/// Being clipped never exceeds the client's own region, and no empty area is listed.
pub proof fn clip_stays_inside(stage: Stage, i: int, k: int)
    requires
        stage.has(i),
        0 <= k < stage.clip(i).len(),
    ensures
        stage.shown(i),
        stage.clip(i)[k].w > 0,
        stage.clip(i)[k].h > 0,
        stage.clients[i].rect matches Some(region) && forall|px: int, py: int| #[trigger]
            stage.clip(i)[k].covers(px, py) ==> region.covers(px, py),
{
    let area = stage.clip(i)[k];
    assert(stage.clip(i).contains(area));
    clip_is_what_others_take(stage, i, area);
    let j = choose|j: int| stage.has(j) && #[trigger] stage.occlusion(j, i) == Some(area);
    crate::protocol::overlap_is_common_area(stage.clients[j].rect->0, stage.clients[i].rect->0);
}

/// A client that declared no region does not take part in the arbitration of areas: it
/// loses nothing and takes nothing.
pub proof fn regionless_client_is_left_out(stage: Stage, i: int)
    requires
        stage.has(i),
        stage.clients[i].rect is None,
    ensures
        stage.clip(i) == Seq::<Rect>::empty(),
        forall|j: int| stage.has(j) ==> #[trigger] stage.occlusion(i, j) is None,
{
    no_occlusions(stage, stage.ranking(), i);
}

/// A hidden client loses nothing and takes nothing.
pub proof fn hidden_client_takes_nothing(stage: Stage, i: int)
    requires
        stage.has(i),
        !stage.shown(i),
    ensures
        stage.clip(i) == Seq::<Rect>::empty(),
        forall|j: int| stage.has(j) ==> #[trigger] stage.occlusion(i, j) is None,
{
    no_occlusions(stage, stage.ranking(), i);
}

/// A client above all other shown clients may draw its whole region.
pub proof fn topmost_client_is_unclipped(stage: Stage, i: int)
    requires
        stage.has(i),
        forall|j: int| stage.has(j) && j != i && #[trigger] stage.shown(j) ==> stage.above(i, j),
    ensures
        stage.clip(i) == Seq::<Rect>::empty(),
{
    if stage.clip(i).len() > 0 {
        let area = stage.clip(i)[0];
        assert(stage.clip(i).contains(area));
        clip_is_what_others_take(stage, i, area);
        let j = choose|j: int| stage.has(j) && #[trigger] stage.occlusion(j, i) == Some(area);
        assert(stage.shown(j));
    }
}

/// While the active session is unknown, the scene alone decides who is shown.
pub proof fn unknown_session_hides_nobody(stage: Stage, i: int)
    requires
        stage.has(i),
        stage.active is None,
    ensures
        stage.shown(i) == stage.allowed(i),
        stage.reason(i) is None,
{
}

/// While no client is bound to a session, it does not matter which one is active.
pub proof fn unbound_clients_ignore_session(stage: Stage, active: Option<Seq<char>>, i: int)
    requires
        stage.has(i),
        forall|j: int| stage.has(j) ==> (#[trigger] stage.clients[j]).session is None,
    ensures
        (Stage { active, ..stage }).notice(i) == stage.notice(i),
{
    let other = Stage { active, ..stage };
    ranking_exists(stage);
    ranking_exists(other);
    assert(other.is_ranking(stage.ranking())) by {
        assert forall|a: int, b: int| 0 <= a < b < stage.ranking().len() implies other.above(
            #[trigger] stage.ranking()[a],
            #[trigger] stage.ranking()[b],
        ) by {
            assert(stage.above(stage.ranking()[a], stage.ranking()[b]));
        }
        assert forall|a: int| 0 <= a < stage.ranking().len() implies other.has(
            #[trigger] stage.ranking()[a],
        ) by {
            assert(stage.has(stage.ranking()[a]));
        }
    }
    rankings_agree(other, other.ranking(), stage.ranking());
    same_occlusions(stage, other, stage.ranking(), i);
}

proof fn same_occlusions(a: Stage, b: Stage, order: Seq<int>, i: int)
    requires
        a.clients == b.clients,
        a.layers == b.layers,
        a.has(i),
        forall|j: int| a.has(j) ==> (#[trigger] a.clients[j]).session is None,
        forall|p: int| 0 <= p < order.len() ==> a.has(#[trigger] order[p]),
    ensures
        a.occlusions(order, i) == b.occlusions(order, i),
    decreases order.len(),
{
    if order.len() > 0 {
        let rest = order.drop_last();
        assert forall|p: int| 0 <= p < rest.len() implies a.has(#[trigger] rest[p]) by {
            assert(rest[p] == order[p]);
        }
        same_occlusions(a, b, rest, i);
        assert(a.has(order[order.len() - 1]));
        assert(a.clients[order.last()].session is None);
        assert(a.clients[i].session is None);
    }
}

/// Whether `b` lists the clients of `a` in another order, client `i` at `place[i]`.
pub open spec fn relisted(a: Stage, b: Stage, place: Seq<int>) -> bool {
    &&& b.layers == a.layers
    &&& b.active == a.active
    &&& b.clients.len() == a.clients.len()
    &&& place.len() == a.clients.len()
    &&& place.no_duplicates()
    &&& forall|i: int|
        0 <= i < place.len() ==> b.has(#[trigger] place[i]) && b.clients[place[i]] == a.clients[i]
}

/// What a client is told does not depend on the order in which the clients are listed, as
/// long as their numbers differ.
pub proof fn listing_order_does_not_matter(a: Stage, b: Stage, place: Seq<int>, i: int)
    requires
        relisted(a, b, place),
        a.has(i),
        forall|j: int, k: int|
            0 <= j < k < a.clients.len() ==> #[trigger] a.clients[j].id
                != #[trigger] a.clients[k].id,
    ensures
        b.notice(place[i]) == a.notice(i),
{
    let order = a.ranking();
    let moved = order.map_values(|j: int| place[j]);
    ranking_exists(a);
    ranking_exists(b);
    assert(b.is_ranking(moved)) by {
        assert forall|p: int| 0 <= p < moved.len() implies b.has(#[trigger] moved[p]) by {
            assert(a.has(order[p]));
            assert(b.has(place[order[p]]));
        }
        assert forall|p: int, q: int| 0 <= p < q < moved.len() implies b.above(
            #[trigger] moved[p],
            #[trigger] moved[q],
        ) by {
            assert(a.has(order[p]) && a.has(order[q]));
            assert(a.above(order[p], order[q]));
            relisted_above(a, b, place, order[p], order[q]);
        }
    }
    rankings_agree(b, moved, b.ranking());
    assert(forall|p: int| 0 <= p < order.len() ==> a.has(#[trigger] order[p]));
    relisted_occlusions(a, b, place, order, i);
    assert(b.has(place[i]) && b.clients[place[i]] == a.clients[i]);
}

proof fn relisted_above(a: Stage, b: Stage, place: Seq<int>, i: int, j: int)
    requires
        relisted(a, b, place),
        a.has(i),
        a.has(j),
        forall|j: int, k: int|
            0 <= j < k < a.clients.len() ==> #[trigger] a.clients[j].id
                != #[trigger] a.clients[k].id,
    ensures
        b.above(place[i], place[j]) == a.above(i, j),
{
    assert(b.has(place[i]) && b.clients[place[i]] == a.clients[i]);
    assert(b.has(place[j]) && b.clients[place[j]] == a.clients[j]);
    if i < j {
        assert(a.clients[i].id != a.clients[j].id);
    } else if j < i {
        assert(a.clients[j].id != a.clients[i].id);
    }
}

proof fn relisted_occlusions(a: Stage, b: Stage, place: Seq<int>, order: Seq<int>, i: int)
    requires
        relisted(a, b, place),
        a.has(i),
        forall|j: int, k: int|
            0 <= j < k < a.clients.len() ==> #[trigger] a.clients[j].id
                != #[trigger] a.clients[k].id,
        forall|p: int| 0 <= p < order.len() ==> a.has(#[trigger] order[p]),
    ensures
        b.occlusions(order.map_values(|j: int| place[j]), place[i]) == a.occlusions(order, i),
    decreases order.len(),
{
    let moved = order.map_values(|j: int| place[j]);
    if order.len() > 0 {
        let rest = order.drop_last();
        assert forall|p: int| 0 <= p < rest.len() implies a.has(#[trigger] rest[p]) by {
            assert(rest[p] == order[p]);
        }
        relisted_occlusions(a, b, place, rest, i);
        assert(moved.drop_last() =~= rest.map_values(|j: int| place[j]));
        let j = order.last();
        assert(a.has(order[order.len() - 1]));
        assert(moved.last() == place[j]);
        assert(b.has(place[i]) && b.clients[place[i]] == a.clients[i]);
        assert(b.has(place[j]) && b.clients[place[j]] == a.clients[j]);
        relisted_above(a, b, place, j, i);
    }
}

/// The place of client `i` once client `gone` has been taken out of the list.
pub open spec fn place_without(gone: int, i: int) -> int {
    if i < gone {
        i
    } else {
        i - 1
    }
}

/// A client that is hidden, or that declared no region, can be taken away without changing
/// what any other client is told.
pub proof fn idle_client_can_be_taken_away(stage: Stage, gone: int, i: int)
    requires
        stage.has(gone),
        stage.has(i),
        i != gone,
        !stage.shown(gone) || stage.clients[gone].rect is None,
    ensures
        (Stage { clients: stage.clients.remove(gone), ..stage }).notice(place_without(gone, i))
            == stage.notice(i),
{
    let fewer = Stage { clients: stage.clients.remove(gone), ..stage };
    let order = stage.ranking();
    ranking_exists(stage);
    ranking_exists(fewer);
    ranking_is_complete(stage, order, gone);
    let p = choose|p: int| 0 <= p < order.len() && order[p] == gone;
    let rest = order.remove(p);
    let moved = rest.map_values(|j: int| place_without(gone, j));
    assert forall|a: int| 0 <= a < rest.len() implies stage.has(#[trigger] rest[a]) && rest[a]
        != gone by {
        let from = if a < p { a } else { a + 1 };
        assert(rest[a] == order[from]);
        assert(stage.has(order[from]));
        if from < p {
            assert(stage.above(order[from], order[p]));
        } else {
            assert(stage.above(order[p], order[from]));
        }
    }
    assert(fewer.is_ranking(moved)) by {
        assert forall|a: int| 0 <= a < moved.len() implies fewer.has(#[trigger] moved[a]) by {
            assert(stage.has(rest[a]) && rest[a] != gone);
        }
        assert forall|a: int, b: int| 0 <= a < b < moved.len() implies fewer.above(
            #[trigger] moved[a],
            #[trigger] moved[b],
        ) by {
            let x = if a < p { a } else { a + 1 };
            let y = if b < p { b } else { b + 1 };
            assert(rest[a] == order[x] && rest[b] == order[y]);
            assert(stage.above(order[x], order[y]));
            assert(stage.has(rest[a]) && rest[a] != gone);
            assert(stage.has(rest[b]) && rest[b] != gone);
            assert(fewer.clients[moved[a]] == stage.clients[rest[a]]);
            assert(fewer.clients[moved[b]] == stage.clients[rest[b]]);
        }
    }
    rankings_agree(fewer, moved, fewer.ranking());
    occlusions_without(stage, order, i, p);
    occlusions_moved(stage, fewer, gone, rest, i);
    assert(fewer.clients[place_without(gone, i)] == stage.clients[i]);
}

/// A client of the list that takes nothing from client `i` can be left out of it.
proof fn occlusions_without(stage: Stage, order: Seq<int>, i: int, p: int)
    requires
        0 <= p < order.len(),
        stage.occlusion(order[p], i) is None,
    ensures
        stage.occlusions(order.remove(p), i) == stage.occlusions(order, i),
    decreases order.len(),
{
    if p == order.len() - 1 {
        assert(order.remove(p) =~= order.drop_last());
    } else {
        occlusions_without(stage, order.drop_last(), i, p);
        assert(order.remove(p).drop_last() =~= order.drop_last().remove(p));
        assert(order.remove(p).last() == order.last());
    }
}

proof fn occlusions_moved(stage: Stage, fewer: Stage, gone: int, order: Seq<int>, i: int)
    requires
        stage.has(gone),
        stage.has(i),
        i != gone,
        fewer == (Stage { clients: stage.clients.remove(gone), ..stage }),
        forall|a: int| 0 <= a < order.len() ==> stage.has(#[trigger] order[a]) && order[a] != gone,
    ensures
        fewer.occlusions(
            order.map_values(|j: int| place_without(gone, j)),
            place_without(gone, i),
        ) == stage.occlusions(order, i),
    decreases order.len(),
{
    let moved = order.map_values(|j: int| place_without(gone, j));
    if order.len() > 0 {
        let rest = order.drop_last();
        assert forall|a: int| 0 <= a < rest.len() implies stage.has(#[trigger] rest[a]) && rest[a]
            != gone by {
            assert(rest[a] == order[a]);
        }
        occlusions_moved(stage, fewer, gone, rest, i);
        assert(moved.drop_last() =~= rest.map_values(|j: int| place_without(gone, j)));
        let j = order[order.len() - 1];
        assert(stage.has(j) && j != gone);
        assert(fewer.clients[place_without(gone, i)] == stage.clients[i]);
        assert(fewer.clients[place_without(gone, j)] == stage.clients[j]);
    }
}

/// The description of a client holds what its fields hold.
pub proof fn description_holds_the_fields(info: LayerInfo<'_>)
    ensures
        info@.id == info.id,
        info@.name == info.name@,
        info@.session is Some <==> info.session is Some,
        info.session is Some ==> info@.session->0 == info.session->0@,
        info@.rect == info.rect,
{
}

/// The clients of a list are the described ones, in the same order.
pub proof fn list_holds_each_client(infos: Seq<LayerInfo<'_>>, i: int)
    ensures
        layers_in(infos).len() == infos.len(),
        0 <= i < infos.len() ==> layers_in(infos)[i] == infos[i]@,
{
}

/// A client is shown exactly if its name is one of the layers and it is not bound to a
/// session other than the one known to be active. It is told the reason `"session"` exactly
/// if its name is one of the layers and its session alone hides it.
pub proof fn name_and_session_decide_who_is_shown(stage: Stage, i: int)
    requires
        0 <= i < stage.clients.len(),
    ensures
        ({
            let client = stage.clients[i];
            let listed = exists|k: int|
                0 <= k < stage.layers.len() && #[trigger] stage.layers[k] == client.name;
            let elsewhere = client.session is Some && stage.active is Some && client.session->0
                != stage.active->0;
            &&& stage.notice(i).visible <==> listed && !elsewhere
            &&& listed && elsewhere ==> stage.notice(i).reason == Some("session"@)
            &&& !(listed && elsewhere) ==> stage.notice(i).reason is None
            &&& stage.notice(i).scene is None
        }),
{
    let name = stage.clients[i].name;
    if stage.layers.contains(name) {
        let k = choose|k: int| 0 <= k < stage.layers.len() && stage.layers[k] == name;
        assert(stage.layers[k] == name);
    }
}

/// Of two clients whose names are layers, the one whose name is met first when going
/// through the layers takes precedence; the ranks are equal only for equal names.
proof fn ranks_by_places(stage: Stage, i: int, j: int)
    requires
        stage.has(i),
        stage.has(j),
        stage.allowed(i),
        stage.allowed(j),
    ensures
        stage.rank(i) < stage.rank(j) <==> exists|p: int|
            0 <= p < stage.layers.len() && #[trigger] stage.layers[p] == stage.clients[i].name && (
            forall|k: int| 0 <= k <= p ==> #[trigger] stage.layers[k] != stage.clients[j].name),
        stage.rank(i) == stage.rank(j) <==> stage.clients[i].name == stage.clients[j].name,
{
    text::position_is_first(stage.layers, stage.clients[i].name);
    text::position_is_first(stage.layers, stage.clients[j].name);
    let p = stage.rank(i);
    assert(stage.layers[p] == stage.clients[i].name);
    assert(stage.layers[stage.rank(j)] == stage.clients[j].name);
}

/// A pixel may be drawn by the client whose name stands first in the layers, among the
/// shown clients whose regions hold the pixel; among those of one name by the one that
/// connected last, that is, with the largest number; and by no other client.
pub proof fn pixel_goes_to_the_first_layer(stage: Stage, i: int, px: int, py: int)
    requires
        0 <= i < stage.clients.len(),
        stage.clients[i].rect is Some,
    ensures
        ({
            let client = stage.clients[i];
            let region = client.rect->0;
            let told = stage.notice(i);
            (told.visible && 0 <= px - region.x < region.w && 0 <= py - region.y < region.h && (
            forall|k: int|
                0 <= k < told.clip.len() ==> !(0 <= px - (#[trigger] told.clip[k]).x
                    < told.clip[k].w && 0 <= py - told.clip[k].y < told.clip[k].h))) <==> (
            told.visible && 0 <= px - region.x < region.w && 0 <= py - region.y < region.h && (
            forall|j: int|
                0 <= j < stage.clients.len() && j != i && stage.notice(j).visible && (
                #[trigger] stage.clients[j]).rect is Some && 0 <= px - stage.clients[j].rect->0.x
                    < stage.clients[j].rect->0.w && 0 <= py - stage.clients[j].rect->0.y
                    < stage.clients[j].rect->0.h ==> {
                    ||| exists|p: int|
                        0 <= p < stage.layers.len() && #[trigger] stage.layers[p] == client.name && (
                        forall|k: int|
                            0 <= k <= p ==> #[trigger] stage.layers[k] != stage.clients[j].name)
                    ||| client.name == stage.clients[j].name && client.id > stage.clients[j].id
                    ||| client.name == stage.clients[j].name && client.id == stage.clients[j].id && i
                        < j
                }))
        }),
{
    let region = stage.clients[i].rect->0;
    let clip = stage.clip(i);
    assert(region.covers(px, py) <==> 0 <= px - region.x < region.w && 0 <= py - region.y
        < region.h);
    assert forall|k: int| 0 <= k < clip.len() implies (#[trigger] clip[k]).covers(px, py) == (0
        <= px - clip[k].x < clip[k].w && 0 <= py - clip[k].y < clip[k].h) by {}
    pixel_belongs_to_topmost(stage, i, px, py);
    if stage.draws(i, px, py) {
        assert forall|j: int|
            0 <= j < stage.clients.len() && j != i && stage.notice(j).visible && (
            #[trigger] stage.clients[j]).rect is Some && 0 <= px - stage.clients[j].rect->0.x
                < stage.clients[j].rect->0.w && 0 <= py - stage.clients[j].rect->0.y
                < stage.clients[j].rect->0.h implies {
            ||| exists|p: int|
                0 <= p < stage.layers.len() && #[trigger] stage.layers[p] == stage.clients[i].name
                    && (forall|k: int|
                    0 <= k <= p ==> #[trigger] stage.layers[k] != stage.clients[j].name)
            ||| stage.clients[i].name == stage.clients[j].name && stage.clients[i].id
                > stage.clients[j].id
            ||| stage.clients[i].name == stage.clients[j].name && stage.clients[i].id
                == stage.clients[j].id && i < j
        } by {
            assert(stage.has(j) && stage.claims(j, px, py));
            ranks_by_places(stage, i, j);
        }
        assert(forall|k: int| 0 <= k < clip.len() ==> !(#[trigger] clip[k]).covers(px, py));
    } else if stage.claims(i, px, py) {
        let j = choose|j: int|
            stage.has(j) && j != i && #[trigger] stage.claims(j, px, py) && !stage.above(i, j);
        ranks_by_places(stage, i, j);
        assert(stage.clients[j].rect is Some && !stage.above(i, j));
        let k = choose|k: int| 0 <= k < clip.len() && (#[trigger] clip[k]).covers(px, py);
        assert(stage.notice(i).clip[k].covers(px, py));
    }
}

/// If the first place of a shown client's name in the layers is before the first place of
/// another shown client's name, then a pixel that both regions hold is kept from the second
/// client, whatever their numbers, and is left to the first one unless a third shown client
/// holds it.
pub proof fn earlier_layer_takes_the_pixel(
    stage: Stage,
    i: int,
    j: int,
    p: int,
    q: int,
    px: int,
    py: int,
)
    requires
        0 <= i < stage.clients.len(),
        0 <= j < stage.clients.len(),
        stage.notice(i).visible,
        stage.notice(j).visible,
        0 <= p < q < stage.layers.len(),
        stage.layers[p] == stage.clients[i].name,
        stage.layers[q] == stage.clients[j].name,
        forall|k: int| 0 <= k < p ==> #[trigger] stage.layers[k] != stage.clients[i].name,
        forall|k: int| 0 <= k < q ==> #[trigger] stage.layers[k] != stage.clients[j].name,
        stage.clients[i].rect is Some,
        stage.clients[j].rect is Some,
        0 <= px - stage.clients[i].rect->0.x < stage.clients[i].rect->0.w,
        0 <= py - stage.clients[i].rect->0.y < stage.clients[i].rect->0.h,
        0 <= px - stage.clients[j].rect->0.x < stage.clients[j].rect->0.w,
        0 <= py - stage.clients[j].rect->0.y < stage.clients[j].rect->0.h,
    ensures
        exists|k: int|
            0 <= k < stage.notice(j).clip.len() && 0 <= px - (#[trigger] stage.notice(j).clip[k]).x
                < stage.notice(j).clip[k].w && 0 <= py - stage.notice(j).clip[k].y < stage.notice(
                j,
            ).clip[k].h,
        (forall|m: int|
            0 <= m < stage.clients.len() && m != i && m != j && stage.notice(m).visible && (
            #[trigger] stage.clients[m]).rect is Some ==> !(0 <= px - stage.clients[m].rect->0.x
                < stage.clients[m].rect->0.w && 0 <= py - stage.clients[m].rect->0.y
                < stage.clients[m].rect->0.h)) ==> forall|k: int|
            0 <= k < stage.notice(i).clip.len() ==> !(0 <= px - (#[trigger] stage.notice(
                i,
            ).clip[k]).x < stage.notice(i).clip[k].w && 0 <= py - stage.notice(i).clip[k].y
                < stage.notice(i).clip[k].h),
{
    pixel_goes_to_the_first_layer(stage, i, px, py);
    pixel_goes_to_the_first_layer(stage, j, px, py);
    assert(stage.layers[p] == stage.clients[i].name && stage.clients[i].name
        != stage.clients[j].name);
    assert(stage.clients[i].rect is Some);
}

/// Of two shown clients of one name, the one that connected later takes what both regions
/// hold: such a pixel is kept from the earlier one, and is left to the later one unless a
/// third shown client holds it.
pub proof fn later_connection_takes_the_pixel(
    stage: Stage,
    i: int,
    j: int,
    px: int,
    py: int,
)
    requires
        0 <= i < stage.clients.len(),
        0 <= j < stage.clients.len(),
        stage.notice(i).visible,
        stage.notice(j).visible,
        stage.clients[i].name == stage.clients[j].name,
        stage.clients[i].id > stage.clients[j].id,
        stage.clients[i].rect is Some,
        stage.clients[j].rect is Some,
        0 <= px - stage.clients[i].rect->0.x < stage.clients[i].rect->0.w,
        0 <= py - stage.clients[i].rect->0.y < stage.clients[i].rect->0.h,
        0 <= px - stage.clients[j].rect->0.x < stage.clients[j].rect->0.w,
        0 <= py - stage.clients[j].rect->0.y < stage.clients[j].rect->0.h,
    ensures
        exists|k: int|
            0 <= k < stage.notice(j).clip.len() && 0 <= px - (#[trigger] stage.notice(j).clip[k]).x
                < stage.notice(j).clip[k].w && 0 <= py - stage.notice(j).clip[k].y < stage.notice(
                j,
            ).clip[k].h,
        (forall|m: int|
            0 <= m < stage.clients.len() && m != i && m != j && stage.notice(m).visible && (
            #[trigger] stage.clients[m]).rect is Some ==> !(0 <= px - stage.clients[m].rect->0.x
                < stage.clients[m].rect->0.w && 0 <= py - stage.clients[m].rect->0.y
                < stage.clients[m].rect->0.h)) ==> forall|k: int|
            0 <= k < stage.notice(i).clip.len() ==> !(0 <= px - (#[trigger] stage.notice(
                i,
            ).clip[k]).x < stage.notice(i).clip[k].w && 0 <= py - stage.notice(i).clip[k].y
                < stage.notice(i).clip[k].h),
{
    pixel_goes_to_the_first_layer(stage, i, px, py);
    pixel_goes_to_the_first_layer(stage, j, px, py);
    assert(stage.clients[i].rect is Some);
    name_and_session_decide_who_is_shown(stage, i);
}

/// Where in `order` the clients stand that take the areas client `i` loses.
proof fn taker_places(stage: Stage, order: Seq<int>, i: int) -> (places: Seq<int>)
    ensures
        places.len() == stage.occlusions(order, i).len(),
        forall|a: int| 0 <= a < places.len() ==> 0 <= #[trigger] places[a] < order.len(),
        forall|a: int, b: int|
            0 <= a < b < places.len() ==> #[trigger] places[a] < #[trigger] places[b],
        forall|a: int|
            0 <= a < places.len() ==> stage.occlusion(order[#[trigger] places[a]], i) == Some(
                stage.occlusions(order, i)[a],
            ),
        forall|q: int|
            0 <= q < order.len() && stage.occlusion(#[trigger] order[q], i) is Some
                ==> places.contains(q),
    decreases order.len(),
{
    if order.len() == 0 {
        Seq::empty()
    } else {
        let rest = order.drop_last();
        let before = taker_places(stage, rest, i);
        let last = order.len() - 1;
        assert forall|a: int| 0 <= a < before.len() implies rest[#[trigger] before[a]]
            == order[before[a]] by {}
        let places = match stage.occlusion(order.last(), i) {
            Some(_) => before.push(last),
            None => before,
        };
        assert forall|q: int|
            0 <= q < order.len() && stage.occlusion(#[trigger] order[q], i) is Some implies places.contains(
            q,
        ) by {
            if q < last {
                assert(rest[q] == order[q]);
                let a = choose|a: int| 0 <= a < before.len() && before[a] == q;
                assert(places[a] == q);
            } else {
                assert(places[before.len() as int] == q);
            }
        }
        places
    }
}

/// The areas a client must not draw in are told one for one: each comes from another shown
/// client whose region shares it and that takes precedence, by the places of the names in
/// the layers and then by the numbers; none of these clients is left out; and the areas come
/// in the order of precedence of the clients that take them.
pub proof fn areas_are_told_one_for_one(stage: Stage, i: int) -> (takers: Seq<int>)
    requires
        0 <= i < stage.clients.len(),
    ensures
        takers.len() == stage.notice(i).clip.len(),
        forall|a: int|
            #![trigger takers[a]]
            0 <= a < takers.len() ==> {
                &&& 0 <= takers[a] < stage.clients.len()
                &&& takers[a] != i
                &&& stage.notice(takers[a]).visible
                &&& stage.notice(i).visible
                &&& stage.clients[takers[a]].rect is Some
                &&& stage.clients[i].rect is Some
                &&& stage.clients[takers[a]].rect->0.overlap(stage.clients[i].rect->0) == Some(
                    stage.notice(i).clip[a],
                )
            },
        forall|a: int, b: int|
            #![trigger takers.push(i)[a], takers.push(i)[b]]
            0 <= a < b <= takers.len() ==> {
                let upper = takers.push(i)[a];
                let lower = takers.push(i)[b];
                ||| exists|p: int|
                    0 <= p < stage.layers.len() && #[trigger] stage.layers[p] == stage.clients[upper].name && (
                    forall|k: int| 0 <= k <= p ==> #[trigger] stage.layers[k] != stage.clients[lower].name)
                ||| stage.clients[upper].name == stage.clients[lower].name && stage.clients[upper].id
                    > stage.clients[lower].id
                ||| stage.clients[upper].name == stage.clients[lower].name && stage.clients[upper].id
                    == stage.clients[lower].id && upper < lower
            },
        forall|j: int|
            #![trigger stage.clients[j]]
            0 <= j < stage.clients.len() && stage.notice(j).visible && stage.notice(i).visible
                && stage.clients[j].rect is Some && stage.clients[i].rect is Some
                && stage.clients[j].rect->0.overlap(stage.clients[i].rect->0) is Some && ({
                ||| exists|p: int|
                    0 <= p < stage.layers.len() && #[trigger] stage.layers[p] == stage.clients[j].name && (
                    forall|k: int| 0 <= k <= p ==> #[trigger] stage.layers[k] != stage.clients[i].name)
                ||| stage.clients[j].name == stage.clients[i].name && stage.clients[j].id
                    > stage.clients[i].id
                ||| stage.clients[j].name == stage.clients[i].name && stage.clients[j].id
                    == stage.clients[i].id && j < i
            }) ==> takers.contains(j),
{
    ranking_exists(stage);
    let order = stage.ranking();
    let places = taker_places(stage, order, i);
    let takers = places.map_values(|q: int| order[q]);
    assert forall|a: int| #![trigger takers[a]] 0 <= a < takers.len() implies {
        &&& stage.has(takers[a])
        &&& stage.occlusion(takers[a], i) == Some(stage.notice(i).clip[a])
    } by {
        assert(0 <= places[a] < order.len());
        assert(stage.has(order[places[a]]));
    }
    assert forall|a: int, b: int|
        #![trigger takers.push(i)[a], takers.push(i)[b]]
        0 <= a < b <= takers.len() implies {
        let upper = takers.push(i)[a];
        let lower = takers.push(i)[b];
        ||| exists|p: int|
            0 <= p < stage.layers.len() && #[trigger] stage.layers[p] == stage.clients[upper].name && (
            forall|k: int| 0 <= k <= p ==> #[trigger] stage.layers[k] != stage.clients[lower].name)
        ||| stage.clients[upper].name == stage.clients[lower].name && stage.clients[upper].id
            > stage.clients[lower].id
        ||| stage.clients[upper].name == stage.clients[lower].name && stage.clients[upper].id
            == stage.clients[lower].id && upper < lower
    } by {
        let upper = takers.push(i)[a];
        let lower = takers.push(i)[b];
        assert(upper == takers[a]);
        assert(stage.occlusion(takers[a], i) is Some);
        if b < takers.len() {
            assert(lower == takers[b]);
            assert(stage.occlusion(takers[b], i) is Some);
            assert(places[a] < places[b]);
            assert(stage.above(order[places[a]], order[places[b]]));
        }
        assert(stage.above(upper, lower));
        ranks_by_places(stage, upper, lower);
    }
    assert forall|j: int|
        #![trigger stage.clients[j]]
        0 <= j < stage.clients.len() && stage.notice(j).visible && stage.notice(i).visible
            && stage.clients[j].rect is Some && stage.clients[i].rect is Some
            && stage.clients[j].rect->0.overlap(stage.clients[i].rect->0) is Some && ({
            ||| exists|p: int|
                0 <= p < stage.layers.len() && #[trigger] stage.layers[p] == stage.clients[j].name && (
                forall|k: int| 0 <= k <= p ==> #[trigger] stage.layers[k] != stage.clients[i].name)
            ||| stage.clients[j].name == stage.clients[i].name && stage.clients[j].id
                > stage.clients[i].id
            ||| stage.clients[j].name == stage.clients[i].name && stage.clients[j].id
                == stage.clients[i].id && j < i
        }) implies takers.contains(j) by {
        ranks_by_places(stage, j, i);
        assert(stage.occlusion(j, i) is Some);
        ranking_is_complete(stage, order, j);
        let q = choose|q: int| 0 <= q < order.len() && order[q] == j;
        assert(stage.occlusion(order[q], i) is Some);
        let a = choose|a: int| 0 <= a < places.len() && places[a] == q;
        assert(takers[a] == j);
    }
    takers
}

/// In what is computed for a list of clients: one whose name is among the layers and that is
/// not bound to another session than the active one is shown; one bound to another session is
/// hidden, for the reason `"session"` if its name is among the layers; and one whose name is
/// not among the layers is hidden for no reason that is told.
pub proof fn computed_messages_follow_name_and_session(
    infos: &[LayerInfo<'_>],
    layers: &[String],
    active: Option<&str>,
    out: Vec<Visible>,
    i: int,
)
    requires
        call_ensures(compute_visibility, (infos, layers, active), out),
        0 <= i < infos@.len(),
    ensures
        ({
            let client = infos@[i];
            let listed = exists|k: int|
                0 <= k < layers@.len() && (#[trigger] layers@[k])@ == client.name@;
            let elsewhere = client.session is Some && active is Some && client.session->0@
                != active->0@;
            &&& out@.len() == infos@.len()
            &&& out@[i].visible <==> listed && !elsewhere
            &&& out@[i].reason is Some <==> listed && elsewhere
            &&& out@[i].reason is Some ==> out@[i].reason->0@ == "session"@
            &&& out@[i].scene is None
        }),
{
    let stage = Stage {
        clients: layers_in(infos@),
        layers: text::texts(layers@),
        active: text::text_of(active),
    };
    name_and_session_decide_who_is_shown(stage, i);
    assert(out@[i]@ == stage.notice(i));
    assert(stage.clients[i] == infos@[i]@);
    if exists|k: int| 0 <= k < stage.layers.len() && #[trigger] stage.layers[k] == infos@[i].name@ {
        let k = choose|k: int|
            0 <= k < stage.layers.len() && #[trigger] stage.layers[k] == infos@[i].name@;
        assert(layers@[k]@ == infos@[i].name@);
    }
    if exists|k: int| 0 <= k < layers@.len() && (#[trigger] layers@[k])@ == infos@[i].name@ {
        let k = choose|k: int|
            0 <= k < layers@.len() && (#[trigger] layers@[k])@ == infos@[i].name@;
        assert(stage.layers[k] == infos@[i].name@);
    }
}

/// In what is computed for a list of clients: if the name of a shown client stands first in
/// the layers at an earlier place than the name of another shown client, a pixel that both
/// regions hold lies in an area that the second is told to leave alone, whatever the numbers
/// of the two; and it lies in no such area of the first, unless the region of a third shown
/// client holds it.
pub proof fn computed_areas_follow_the_layers(
    infos: &[LayerInfo<'_>],
    layers: &[String],
    active: Option<&str>,
    out: Vec<Visible>,
    i: int,
    j: int,
    p: int,
    q: int,
    px: int,
    py: int,
)
    requires
        call_ensures(compute_visibility, (infos, layers, active), out),
        0 <= i < infos@.len(),
        0 <= j < infos@.len(),
        out@[i].visible,
        out@[j].visible,
        0 <= p < q < layers@.len(),
        layers@[p]@ == infos@[i].name@,
        layers@[q]@ == infos@[j].name@,
        forall|k: int| 0 <= k < p ==> (#[trigger] layers@[k])@ != infos@[i].name@,
        forall|k: int| 0 <= k < q ==> (#[trigger] layers@[k])@ != infos@[j].name@,
        infos@[i].rect is Some,
        infos@[j].rect is Some,
        0 <= px - infos@[i].rect->0.x < infos@[i].rect->0.w,
        0 <= py - infos@[i].rect->0.y < infos@[i].rect->0.h,
        0 <= px - infos@[j].rect->0.x < infos@[j].rect->0.w,
        0 <= py - infos@[j].rect->0.y < infos@[j].rect->0.h,
    ensures
        exists|k: int|
            0 <= k < out@[j].clip@.len() && 0 <= px - (#[trigger] out@[j].clip@[k]).x
                < out@[j].clip@[k].w && 0 <= py - out@[j].clip@[k].y < out@[j].clip@[k].h,
        (forall|m: int|
            0 <= m < infos@.len() && m != i && m != j && (#[trigger] infos@[m]).rect is Some
                && out@[m].visible ==> !(0 <= px - infos@[m].rect->0.x < infos@[m].rect->0.w && 0
                <= py - infos@[m].rect->0.y < infos@[m].rect->0.h)) ==> forall|k: int|
            0 <= k < out@[i].clip@.len() ==> !(0 <= px - (#[trigger] out@[i].clip@[k]).x
                < out@[i].clip@[k].w && 0 <= py - out@[i].clip@[k].y < out@[i].clip@[k].h),
{
    let stage = Stage {
        clients: layers_in(infos@),
        layers: text::texts(layers@),
        active: text::text_of(active),
    };
    assert(out@[i]@ == stage.notice(i) && out@[j]@ == stage.notice(j));
    assert(stage.clients[i] == infos@[i]@ && stage.clients[j] == infos@[j]@);
    assert(forall|k: int| 0 <= k < layers@.len() ==> #[trigger] stage.layers[k] == layers@[k]@);
    earlier_layer_takes_the_pixel(stage, i, j, p, q, px, py);
    assert(forall|m: int|
        0 <= m < infos@.len() ==> #[trigger] stage.clients[m] == infos@[m]@ && out@[m]@
            == stage.notice(m));
    let k = choose|k: int|
        0 <= k < stage.notice(j).clip.len() && 0 <= px - (#[trigger] stage.notice(j).clip[k]).x
            < stage.notice(j).clip[k].w && 0 <= py - stage.notice(j).clip[k].y < stage.notice(
            j,
        ).clip[k].h;
    assert(out@[j].clip@[k] == stage.notice(j).clip[k]);
    if forall|m: int|
        0 <= m < infos@.len() && m != i && m != j && (#[trigger] infos@[m]).rect is Some
            && out@[m].visible ==> !(0 <= px - infos@[m].rect->0.x < infos@[m].rect->0.w && 0 <= py
            - infos@[m].rect->0.y < infos@[m].rect->0.h) {
        assert forall|m: int|
            0 <= m < stage.clients.len() && m != i && m != j && stage.notice(m).visible && (
            #[trigger] stage.clients[m]).rect is Some implies !(0 <= px
            - stage.clients[m].rect->0.x < stage.clients[m].rect->0.w && 0 <= py
            - stage.clients[m].rect->0.y < stage.clients[m].rect->0.h) by {
            assert(infos@[m].rect == stage.clients[m].rect);
            assert(out@[m]@ == stage.notice(m));
        }
        assert forall|k: int| 0 <= k < out@[i].clip@.len() implies !(0 <= px - (
        #[trigger] out@[i].clip@[k]).x < out@[i].clip@[k].w && 0 <= py - out@[i].clip@[k].y
            < out@[i].clip@[k].h) by {
            assert(out@[i].clip@[k] == stage.notice(i).clip[k]);
        }
    }
}

} // verus!
