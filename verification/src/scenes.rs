//! The scenes of `scenes.toml`, and the layers each of them allows.
//!
//! ```toml
//! default = ["status-bar", "task-var"]
//!
//! [scenes.ssbrowse]
//! extends = "default"
//! add = ["ssbrowse"]
//!
//! [scenes.touch-paint]
//! layers = ["status-bar", "task-var", "touch-paint"]
//! ```
//!
//! A scene with `layers` allows exactly those. Any other scene allows the layers of the
//! scene it extends (`"default"` unless it says otherwise), followed by those of `add`.
use crate::text;
use vstd::prelude::*;

verus! {

/// A scene as it is written down.
pub struct RawScene {
    pub extends: Option<String>,
    pub add: Vec<String>,
    pub layers: Option<Vec<String>>,
}

/// The contents of `scenes.toml`. Where a name is listed twice, its first scene counts.
pub struct RawConfig {
    pub default: Vec<String>,
    pub scenes: Vec<(String, RawScene)>,
}

/// The contents of a [`RawScene`].
pub struct Rule {
    pub extends: Option<Seq<char>>,
    pub add: Seq<Seq<char>>,
    pub layers: Option<Seq<Seq<char>>>,
}

impl View for RawScene {
    type V = Rule;

    open spec fn view(&self) -> Rule {
        Rule {
            extends: text::string_of(self.extends),
            add: text::texts(self.add@),
            layers: match self.layers {
                Some(list) => Some(text::texts(list@)),
                None => None,
            },
        }
    }
}

/// The contents of a [`RawConfig`]: what each name stands for.
pub struct Rules {
    pub default: Seq<Seq<char>>,
    pub scenes: Map<Seq<char>, Rule>,
}

impl View for RawConfig {
    type V = Rules;

    open spec fn view(&self) -> Rules {
        let names = text::keys(self.scenes@);
        Rules {
            default: text::texts(self.default@),
            scenes: Map::new(
                |name: Seq<char>| names.contains(name),
                |name: Seq<char>| self.scenes@[text::position(names, name)].1@,
            ),
        }
    }
}

/// What is wrong with a configuration.
pub enum Fault {
    HomeUnset,
    Cycle(Seq<char>),
    Undefined(Seq<char>),
}

/// Why there is no configuration.
#[derive(Debug)]
pub enum ConfigError {
    /// The home directory is not known.
    HomeUnset,
    /// Following `extends` comes back to this scene.
    Cycle(String),
    /// This scene is extended but not defined.
    Undefined(String),
}

impl View for ConfigError {
    type V = Fault;

    open spec fn view(&self) -> Fault {
        match *self {
            ConfigError::HomeUnset => Fault::HomeUnset,
            ConfigError::Cycle(name) => Fault::Cycle(name@),
            ConfigError::Undefined(name) => Fault::Undefined(name@),
        }
    }
}

impl ConfigError {
    /// What to tell the user.
    pub fn message(&self) -> (r: String)
        ensures
            r@ == match self@ {
                Fault::HomeUnset => "HOME が設定されていません"@,
                Fault::Cycle(name) => "scenes.toml: extends の循環参照 ("@ + name + ")"@,
                Fault::Undefined(name) => "scenes.toml: 未定義のシーン ("@ + name + ")"@,
            },
    {
        match self {
            ConfigError::HomeUnset => "HOME が設定されていません".to_owned(),
            ConfigError::Cycle(name) => {
                let mut out: String = "scenes.toml: extends の循環参照 (".to_owned();
                out.append(name.as_str());
                out.append(")");
                out
            },
            ConfigError::Undefined(name) => {
                let mut out: String = "scenes.toml: 未定義のシーン (".to_owned();
                out.append(name.as_str());
                out.append(")");
                out
            },
        }
    }
}

impl Rules {
    /// Whether the layers of `name` are written down in full.
    pub open spec fn settled(self, name: Seq<char>) -> bool {
        name == "default"@ || (self.scenes.contains_key(name) && self.scenes[name].layers is Some)
    }

    /// The layers of a scene that are written down in full.
    pub open spec fn own_layers(self, name: Seq<char>) -> Seq<Seq<char>> {
        if name == "default"@ {
            self.default
        } else {
            self.scenes[name].layers->0
        }
    }

    /// Whether the layers of `name` derive from another scene.
    pub open spec fn inherits(self, name: Seq<char>) -> bool {
        name != "default"@ && self.scenes.contains_key(name) && self.scenes[name].layers is None
    }

    /// Whether nothing is written down about `name`.
    pub open spec fn undefined(self, name: Seq<char>) -> bool {
        name != "default"@ && !self.scenes.contains_key(name)
    }

    /// The scene that `name` extends.
    pub open spec fn parent(self, name: Seq<char>) -> Seq<char> {
        match self.scenes[name].extends {
            Some(base) => base,
            None => "default"@,
        }
    }

    /// The scene reached from `name` by following `extends` `k` times.
    pub open spec fn ancestor(self, name: Seq<char>, k: nat) -> Seq<char>
        decreases k,
    {
        if k == 0 {
            name
        } else {
            self.parent(self.ancestor(name, (k - 1) as nat))
        }
    }

    /// Whether `extends` can be followed `k` times from `name`.
    pub open spec fn climbs(self, name: Seq<char>, k: nat) -> bool {
        forall|j: nat| j < k ==> self.inherits(#[trigger] self.ancestor(name, j))
    }

    /// Whether following `extends` `k` times from `name` ends at layers written in full.
    pub open spec fn resolves(self, name: Seq<char>, k: nat) -> bool {
        self.climbs(name, k) && self.settled(self.ancestor(name, k))
    }

    /// Whether following `extends` `k` times from `name` ends at an undefined scene.
    pub open spec fn dangles(self, name: Seq<char>, k: nat) -> bool {
        self.climbs(name, k) && self.undefined(self.ancestor(name, k))
    }

    /// Whether following `extends` `k` times from `name` comes, for the first time, to a
    /// scene that was passed before.
    pub open spec fn recurs(self, name: Seq<char>, k: nat) -> bool {
        &&& self.climbs(name, k)
        &&& forall|i: nat, j: nat|
            i < j < k ==> #[trigger] self.ancestor(name, i) != #[trigger] self.ancestor(name, j)
        &&& exists|j: nat| j < k && #[trigger] self.ancestor(name, j) == self.ancestor(name, k)
    }

    /// The layers of `name` where the scene `k` steps up is written in full: its layers,
    /// followed by what each scene on the way down adds.
    pub open spec fn inherited(self, name: Seq<char>, k: nat) -> Seq<Seq<char>>
        decreases k,
    {
        if k == 0 {
            self.own_layers(name)
        } else {
            self.inherited(self.parent(name), (k - 1) as nat) + self.scenes[name].add
        }
    }

    /// The layers that the scene `name` allows, or what keeps them from being determined.
    pub open spec fn outcome(self, name: Seq<char>) -> Result<Seq<Seq<char>>, Fault> {
        if exists|k: nat| self.resolves(name, k) {
            Ok(self.inherited(name, choose|k: nat| self.resolves(name, k)))
        } else if exists|k: nat| self.dangles(name, k) {
            Err(Fault::Undefined(self.ancestor(name, choose|k: nat| self.dangles(name, k))))
        } else {
            Err(Fault::Cycle(self.ancestor(name, choose|k: nat| self.recurs(name, k))))
        }
    }

    /// Whether the layers of every scene can be determined.
    pub open spec fn sound(self) -> bool {
        forall|name: Seq<char>| #[trigger] self.scenes.contains_key(name) ==> self.outcome(name) is Ok
    }

    /// The layers of every scene, `"default"` included.
    pub open spec fn table(self) -> Map<Seq<char>, Seq<Seq<char>>> {
        Map::new(
            |name: Seq<char>| name == "default"@ || self.scenes.contains_key(name),
            |name: Seq<char>| self.outcome(name)->Ok_0,
        )
    }
}

proof fn ancestor_of_parent(rules: Rules, name: Seq<char>, k: nat)
    ensures
        rules.ancestor(rules.parent(name), k) == rules.ancestor(name, k + 1),
    decreases k,
{
    if k == 0 {
        assert(rules.ancestor(name, 1) == rules.parent(rules.ancestor(name, 0)));
    } else {
        ancestor_of_parent(rules, name, (k - 1) as nat);
    }
}

/// Two ways of following `extends` to its end are the same.
proof fn ends_agree(rules: Rules, name: Seq<char>, j: nat, k: nat)
    requires
        rules.climbs(name, j),
        rules.climbs(name, k),
        !rules.inherits(rules.ancestor(name, j)),
        !rules.inherits(rules.ancestor(name, k)),
    ensures
        j == k,
{
    if j < k {
        assert(rules.inherits(rules.ancestor(name, j)));
    } else if k < j {
        assert(rules.inherits(rules.ancestor(name, k)));
    }
}

proof fn outcome_of_resolving(rules: Rules, name: Seq<char>, k: nat)
    requires
        rules.resolves(name, k),
    ensures
        rules.outcome(name) == Ok::<Seq<Seq<char>>, Fault>(rules.inherited(name, k)),
{
    let c = choose|c: nat| rules.resolves(name, c);
    ends_agree(rules, name, c, k);
}

proof fn outcome_of_dangling(rules: Rules, name: Seq<char>, k: nat)
    requires
        rules.dangles(name, k),
    ensures
        rules.outcome(name) == Err::<Seq<Seq<char>>, Fault>(
            Fault::Undefined(rules.ancestor(name, k)),
        ),
{
    if exists|c: nat| rules.resolves(name, c) {
        let c = choose|c: nat| rules.resolves(name, c);
        ends_agree(rules, name, c, k);
    }
    let d = choose|d: nat| rules.dangles(name, d);
    ends_agree(rules, name, d, k);
}

/// Once `extends` has come back to a scene, it can be followed forever.
proof fn returning_never_ends(rules: Rules, name: Seq<char>, k: nat, m: nat)
    requires
        rules.recurs(name, k),
    ensures
        exists|i: nat| i < k && #[trigger] rules.ancestor(name, i) == rules.ancestor(name, m),
        rules.inherits(rules.ancestor(name, m)),
    decreases m,
{
    if m < k {
        assert(rules.ancestor(name, m) == rules.ancestor(name, m));
    } else if m == k {
    } else {
        returning_never_ends(rules, name, k, (m - 1) as nat);
        let i = choose|i: nat|
            i < k && #[trigger] rules.ancestor(name, i) == rules.ancestor(name, (m - 1) as nat);
        assert(rules.ancestor(name, i + 1) == rules.ancestor(name, m));
        if i + 1 == k {
            let j = choose|j: nat|
                j < k && #[trigger] rules.ancestor(name, j) == rules.ancestor(name, k);
            assert(rules.ancestor(name, j) == rules.ancestor(name, m));
        }
    }
}

proof fn outcome_of_returning(rules: Rules, name: Seq<char>, k: nat)
    requires
        rules.recurs(name, k),
    ensures
        rules.outcome(name) == Err::<Seq<Seq<char>>, Fault>(Fault::Cycle(rules.ancestor(name, k))),
{
    if exists|c: nat| rules.resolves(name, c) {
        let c = choose|c: nat| rules.resolves(name, c);
        returning_never_ends(rules, name, k, c);
    }
    if exists|d: nat| rules.dangles(name, d) {
        let d = choose|d: nat| rules.dangles(name, d);
        returning_never_ends(rules, name, k, d);
    }
    let r = choose|r: nat| rules.recurs(name, r);
    if r < k {
        let j = choose|j: nat| j < r && #[trigger] rules.ancestor(name, j) == rules.ancestor(name, r);
        assert(rules.ancestor(name, j) != rules.ancestor(name, r));
    } else if k < r {
        let j = choose|j: nat| j < k && #[trigger] rules.ancestor(name, j) == rules.ancestor(name, k);
        assert(rules.ancestor(name, j) != rules.ancestor(name, k));
    }
}

/// A scene with `layers` allows exactly those, whatever else it says.
pub proof fn layers_are_final(rules: Rules, name: Seq<char>)
    requires
        name != "default"@,
        rules.scenes.contains_key(name),
        rules.scenes[name].layers is Some,
    ensures
        rules.outcome(name) == Ok::<Seq<Seq<char>>, Fault>(rules.scenes[name].layers->0),
{
    assert(rules.ancestor(name, 0) == name);
    assert(rules.resolves(name, 0));
    outcome_of_resolving(rules, name, 0);
}

/// The scene `"default"` allows the default layers, whatever the scenes say.
pub proof fn default_scene_is_fixed(rules: Rules)
    ensures
        rules.outcome("default"@) == Ok::<Seq<Seq<char>>, Fault>(rules.default),
        rules.table().contains_key("default"@),
        rules.table()["default"@] == rules.default,
{
    assert(rules.ancestor("default"@, 0) == "default"@);
    assert(rules.resolves("default"@, 0));
    outcome_of_resolving(rules, "default"@, 0);
}

/// A scene without `layers` allows the layers of the scene it extends, followed by those
/// it adds; it has layers exactly if the extended scene has.
pub proof fn extending_appends(rules: Rules, name: Seq<char>)
    requires
        name != "default"@,
        rules.scenes.contains_key(name),
        rules.scenes[name].layers is None,
    ensures
        match rules.outcome(rules.parent(name)) {
            Ok(base) => rules.outcome(name) == Ok::<Seq<Seq<char>>, Fault>(
                base + rules.scenes[name].add,
            ),
            Err(_) => rules.outcome(name) is Err,
        },
{
    let base = rules.parent(name);
    assert(rules.ancestor(name, 0) == name);
    if exists|k: nat| rules.resolves(base, k) {
        let k = choose|k: nat| rules.resolves(base, k);
        resolving_parent(rules, name, k);
        outcome_of_resolving(rules, base, k);
        outcome_of_resolving(rules, name, k + 1);
    } else if exists|k: nat| rules.resolves(name, k) {
        let k = choose|k: nat| rules.resolves(name, k);
        assert(k > 0);
        let up = (k - 1) as nat;
        assert forall|j: nat| j < up implies rules.inherits(#[trigger] rules.ancestor(base, j)) by {
            ancestor_of_parent(rules, name, j);
            assert(rules.inherits(rules.ancestor(name, j + 1)));
        }
        ancestor_of_parent(rules, name, up);
        assert(rules.resolves(base, up));
    }
}

proof fn resolving_parent(rules: Rules, name: Seq<char>, k: nat)
    requires
        rules.inherits(name),
        rules.resolves(rules.parent(name), k),
    ensures
        rules.resolves(name, k + 1),
{
    assert forall|j: nat| j < k + 1 implies rules.inherits(#[trigger] rules.ancestor(name, j)) by {
        if j == 0 {
            assert(rules.ancestor(name, 0) == name);
        } else {
            ancestor_of_parent(rules, name, (j - 1) as nat);
            assert(rules.inherits(rules.ancestor(rules.parent(name), (j - 1) as nat)));
        }
    }
    ancestor_of_parent(rules, name, k);
}

/// Scenes that differ are no more than there are scenes.
proof fn trail_fits(rules: Rules, trail: Seq<Seq<char>>)
    requires
        rules.scenes.dom().finite(),
        trail.no_duplicates(),
        forall|j: int| 0 <= j < trail.len() ==> rules.scenes.contains_key(#[trigger] trail[j]),
    ensures
        trail.len() <= rules.scenes.dom().len(),
{
    trail.unique_seq_to_set();
    assert(trail.to_set().subset_of(rules.scenes.dom()));
    vstd::set_lib::lemma_len_subset(trail.to_set(), rules.scenes.dom());
}

/// Following `extends` from a scene, one of three things happens: it ends at layers
/// written in full, at an undefined scene, or it comes back to a scene passed before.
pub proof fn every_scene_is_decided(rules: Rules, name: Seq<char>)
    requires
        rules.scenes.dom().finite(),
    ensures
        exists|k: nat|
            #![trigger rules.ancestor(name, k)]
            rules.resolves(name, k) || rules.dangles(name, k) || rules.recurs(name, k),
{
    decided_from(rules, name, 0);
}

proof fn decided_from(rules: Rules, name: Seq<char>, k: nat)
    requires
        rules.scenes.dom().finite(),
        rules.climbs(name, k),
        forall|i: nat, j: nat|
            i < j < k ==> #[trigger] rules.ancestor(name, i) != #[trigger] rules.ancestor(name, j),
        k <= rules.scenes.dom().len(),
    ensures
        exists|c: nat|
            #![trigger rules.ancestor(name, c)]
            rules.resolves(name, c) || rules.dangles(name, c) || rules.recurs(name, c),
    decreases rules.scenes.dom().len() - k,
{
    let here = rules.ancestor(name, k);
    if rules.inherits(here) && !rules.recurs(name, k) {
        let trail = Seq::new(k + 1, |j: int| rules.ancestor(name, j as nat));
        assert(trail.no_duplicates()) by {
            assert forall|i: int, j: int|
                0 <= i < trail.len() && 0 <= j < trail.len() && i != j implies trail[i] != trail[j] by {
                let low = if i < j { i as nat } else { j as nat };
                let high = if i < j { j as nat } else { i as nat };
                assert(rules.ancestor(name, low) != rules.ancestor(name, high));
            }
        }
        assert forall|j: int| 0 <= j < trail.len() implies rules.scenes.contains_key(
            #[trigger] trail[j],
        ) by {
            assert(rules.inherits(rules.ancestor(name, j as nat)));
        }
        trail_fits(rules, trail);
        decided_from(rules, name, k + 1);
    } else {
        assert(rules.resolves(name, k) || rules.dangles(name, k) || rules.recurs(name, k));
    }
}

/// Equal scenes have equal ancestors.
proof fn ancestors_shift(rules: Rules, name: Seq<char>, i: nat, j: nat, t: nat)
    requires
        rules.ancestor(name, i) == rules.ancestor(name, j),
    ensures
        rules.ancestor(name, i + t) == rules.ancestor(name, j + t),
    decreases t,
{
    if t > 0 {
        ancestors_shift(rules, name, i, j, (t - 1) as nat);
    }
}

/// A scene that extends itself, directly or by way of others, is rejected as a cycle.
pub proof fn cycle_is_rejected(rules: Rules, name: Seq<char>, k: nat)
    requires
        k > 0,
        rules.climbs(name, k),
        rules.ancestor(name, k) == name,
    ensures
        rules.outcome(name) == Err::<Seq<Seq<char>>, Fault>(Fault::Cycle(name)),
    decreases k,
{
    assert(rules.ancestor(name, 0) == name);
    if exists|i: nat, j: nat|
        i < j < k && #[trigger] rules.ancestor(name, i) == #[trigger] rules.ancestor(name, j) {
        let (i, j) = choose|i: nat, j: nat|
            i < j < k && #[trigger] rules.ancestor(name, i) == #[trigger] rules.ancestor(name, j);
        ancestors_shift(rules, name, i, j, (k - j) as nat);
        cycle_is_rejected(rules, name, (i + (k - j)) as nat);
    } else {
        assert(rules.recurs(name, k));
        outcome_of_returning(rules, name, k);
    }
}

/// A scene that extends an undefined one is rejected, and the undefined one is named.
pub proof fn undefined_base_is_rejected(rules: Rules, name: Seq<char>)
    requires
        rules.inherits(name),
        rules.undefined(rules.parent(name)),
    ensures
        rules.outcome(name) == Err::<Seq<Seq<char>>, Fault>(Fault::Undefined(rules.parent(name))),
{
    assert(rules.ancestor(name, 0) == name);
    assert(rules.ancestor(name, 1) == rules.parent(rules.ancestor(name, 0)));
    assert(rules.dangles(name, 1));
    outcome_of_dangling(rules, name, 1);
}

/// The scenes resolved so far: each once, with its layers.
spec fn resolved_well(rules: Rules, entries: Seq<(String, Vec<String>)>) -> bool {
    let names = text::keys(entries);
    &&& names.no_duplicates()
    &&& forall|i: int|
        0 <= i < entries.len() ==> {
            &&& #[trigger] names[i] == "default"@ || rules.scenes.contains_key(names[i])
            &&& rules.outcome(names[i]) == Ok::<Seq<Seq<char>>, Fault>(text::texts(entries[i].1@))
        }
}

/// The scene from which the search that came by way of `trail` to `name` started.
spec fn origin(trail: Seq<Seq<char>>, name: Seq<char>) -> Seq<char> {
    if trail.len() == 0 {
        name
    } else {
        trail[0]
    }
}

/// Whether the search from `name` passes the scene `k` steps up: neither that scene nor one
/// before it is `"default"` or among the `known` scenes.
spec fn passes(rules: Rules, known: Seq<Seq<char>>, name: Seq<char>, k: nat) -> bool {
    &&& rules.climbs(name, k)
    &&& forall|j: nat|
        j <= k ==> #[trigger] rules.ancestor(name, j) != "default"@ && !known.contains(
            rules.ancestor(name, j),
        )
}

/// Whether `other` is one of the scenes that the search from `name` passes.
spec fn is_passed(
    rules: Rules,
    known: Seq<Seq<char>>,
    name: Seq<char>,
    other: Seq<char>,
) -> bool {
    exists|k: nat| passes(rules, known, name, k) && #[trigger] rules.ancestor(name, k) == other
}

/// A search that passes a scene passes it first, and then what the search from the scene
/// it extends passes.
proof fn passed_by_step(rules: Rules, known: Seq<Seq<char>>, name: Seq<char>)
    requires
        name != "default"@,
        !known.contains(name),
    ensures
        is_passed(rules, known, name, name),
        rules.inherits(name) ==> forall|other: Seq<char>| #[trigger]
            is_passed(rules, known, name, other) <==> other == name || is_passed(
                rules,
                known,
                rules.parent(name),
                other,
            ),
        !rules.inherits(name) ==> forall|other: Seq<char>| #[trigger]
            is_passed(rules, known, name, other) <==> other == name,
{
    assert(rules.ancestor(name, 0) == name);
    assert(passes(rules, known, name, 0));
    let base = rules.parent(name);
    assert forall|other: Seq<char>|
        rules.inherits(name) && #[trigger] is_passed(rules, known, base, other) implies is_passed(
        rules,
        known,
        name,
        other,
    ) by {
        let k = choose|k: nat|
            passes(rules, known, base, k) && #[trigger] rules.ancestor(base, k) == other;
        assert forall|j: nat| j <= k + 1 implies {
            &&& #[trigger] rules.ancestor(name, j) != "default"@
            &&& !known.contains(rules.ancestor(name, j))
            &&& j <= k ==> rules.inherits(rules.ancestor(name, j))
        } by {
            if j > 0 {
                ancestor_of_parent(rules, name, (j - 1) as nat);
                assert(rules.ancestor(base, (j - 1) as nat) != "default"@);
            }
        }
        ancestor_of_parent(rules, name, k);
        assert(passes(rules, known, name, k + 1));
        assert(rules.ancestor(name, k + 1) == other);
    }
    assert forall|other: Seq<char>| #[trigger]
        is_passed(rules, known, name, other) && other != name implies rules.inherits(name)
        && is_passed(rules, known, base, other) by {
        let k = choose|k: nat|
            passes(rules, known, name, k) && #[trigger] rules.ancestor(name, k) == other;
        assert(rules.inherits(rules.ancestor(name, 0)));
        let up = (k - 1) as nat;
        assert forall|j: nat| j <= up implies {
            &&& #[trigger] rules.ancestor(base, j) != "default"@
            &&& !known.contains(rules.ancestor(base, j))
            &&& j < up ==> rules.inherits(rules.ancestor(base, j))
        } by {
            ancestor_of_parent(rules, name, j);
            assert(rules.ancestor(name, j + 1) != "default"@);
        }
        ancestor_of_parent(rules, name, up);
        assert(passes(rules, known, base, up));
        assert(rules.ancestor(base, up) == other);
    }
}

/// A search passes nothing if it starts at `"default"` or at a known scene.
proof fn nothing_passed(rules: Rules, known: Seq<Seq<char>>, name: Seq<char>)
    requires
        name == "default"@ || known.contains(name),
    ensures
        forall|other: Seq<char>| !#[trigger] is_passed(rules, known, name, other),
{
    assert(rules.ancestor(name, 0) == name);
}

/// The first `k` scenes met when following `extends` from `name`, beginning with `name`.
spec fn way_up(rules: Rules, name: Seq<char>, k: nat) -> Seq<Seq<char>> {
    Seq::new(k, |j: int| rules.ancestor(name, j as nat))
}

/// The name of the scene that a fault is about.
spec fn culprit(fault: Fault) -> Seq<char> {
    match fault {
        Fault::HomeUnset => Seq::empty(),
        Fault::Cycle(name) => name,
        Fault::Undefined(name) => name,
    }
}

/// Whether `trail` lists the scenes passed on the way from its origin to `name`.
spec fn trail_leads_to(rules: Rules, trail: Seq<Seq<char>>, name: Seq<char>) -> bool {
    &&& trail.no_duplicates()
    &&& name == rules.ancestor(origin(trail, name), trail.len())
    &&& forall|j: int|
        0 <= j < trail.len() ==> {
            &&& #[trigger] trail[j] == rules.ancestor(origin(trail, name), j as nat)
            &&& rules.inherits(trail[j])
        }
}

proof fn trail_climbs(rules: Rules, trail: Seq<Seq<char>>, name: Seq<char>)
    requires
        trail_leads_to(rules, trail, name),
    ensures
        rules.climbs(origin(trail, name), trail.len()),
        forall|i: nat, j: nat|
            i < j < trail.len() ==> #[trigger] rules.ancestor(origin(trail, name), i)
                != #[trigger] rules.ancestor(origin(trail, name), j),
{
    let start = origin(trail, name);
    assert forall|j: nat| j < trail.len() implies rules.inherits(
        #[trigger] rules.ancestor(start, j),
    ) by {
        assert(trail[j as int] == rules.ancestor(start, j));
    }
    assert forall|i: nat, j: nat| i < j < trail.len() implies #[trigger] rules.ancestor(start, i)
        != #[trigger] rules.ancestor(start, j) by {
        assert(trail[i as int] == rules.ancestor(start, i));
        assert(trail[j as int] == rules.ancestor(start, j));
    }
}

proof fn scenes_are_finite(raw: RawConfig)
    ensures
        raw@.scenes.dom().finite(),
        raw@.scenes.dom().len() <= raw.scenes@.len(),
{
    let names = text::keys(raw.scenes@);
    names.lemma_cardinality_of_set();
    assert(raw@.scenes.dom() =~= names.to_set());
    vstd::seq_lib::seq_to_set_is_finite(names);
}

/// What was passed from the scene that `name` extends was passed from `name` as well.
proof fn way_continues(
    rules: Rules,
    name: Seq<char>,
    base: Seq<char>,
    trail: Seq<Seq<char>>,
    passed: Seq<Seq<char>>,
    fault: Fault,
)
    requires
        rules.inherits(name),
        base == rules.parent(name),
        exists|k: nat|
            {
                &&& rules.climbs(base, k)
                &&& #[trigger] rules.ancestor(base, k) == culprit(fault)
                &&& passed == trail.push(name) + way_up(rules, base, k)
            },
    ensures
        exists|k: nat|
            {
                &&& rules.climbs(name, k)
                &&& #[trigger] rules.ancestor(name, k) == culprit(fault)
                &&& passed == trail + way_up(rules, name, k)
            },
{
    let k = choose|k: nat|
        {
            &&& rules.climbs(base, k)
            &&& #[trigger] rules.ancestor(base, k) == culprit(fault)
            &&& passed == trail.push(name) + way_up(rules, base, k)
        };
    assert(rules.ancestor(name, 0) == name);
    assert forall|j: nat| 0 < j <= k + 1 implies #[trigger] rules.ancestor(name, j)
        == rules.ancestor(base, (j - 1) as nat) by {
        ancestor_of_parent(rules, name, (j - 1) as nat);
    }
    assert forall|j: nat| j < k + 1 implies rules.inherits(#[trigger] rules.ancestor(name, j)) by {
        if j > 0 {
            assert(rules.inherits(rules.ancestor(base, (j - 1) as nat)));
        }
    }
    assert(passed =~= trail + way_up(rules, name, k + 1));
    assert(rules.ancestor(name, k + 1) == culprit(fault));
}

/// Records the layers of `name`, unless they are known already.
fn record(
    raw: &RawConfig,
    resolved: &mut Vec<(String, Vec<String>)>,
    name: &str,
    layers: &Vec<String>,
)
    requires
        resolved_well(raw@, old(resolved)@),
        raw@.scenes.contains_key(name@) || name@ == "default"@,
        raw@.outcome(name@) == Ok::<Seq<Seq<char>>, Fault>(text::texts(layers@)),
    ensures
        resolved_well(raw@, final(resolved)@),
        old(resolved)@.is_prefix_of(final(resolved)@),
        if text::keys(old(resolved)@).contains(name@) {
            final(resolved)@ == old(resolved)@
        } else {
            text::keys(final(resolved)@) == text::keys(old(resolved)@).push(name@)
        },
{
    let ghost names = text::keys(resolved@);
    proof {
        text::position_is_first(names, name@);
    }
    if text::find_key(resolved, name) >= resolved.len() {
        let entry: (String, Vec<String>) = (name.to_owned(), text::copy(layers));
        resolved.push(entry);
        proof {
            let longer = text::keys(resolved@);
            assert(longer =~= names.push(name@));
            assert(longer[names.len() as int] == name@);
            assert forall|i: int| 0 <= i < resolved@.len() implies {
                &&& #[trigger] longer[i] == "default"@ || raw@.scenes.contains_key(longer[i])
                &&& raw@.outcome(longer[i]) == Ok::<Seq<Seq<char>>, Fault>(
                    text::texts(resolved@[i].1@),
                )
            } by {
                if i < names.len() {
                    assert(longer[i] == names[i]);
                }
            }
        }
    }
}

/// Determines the layers of `name` and records them in `resolved`, along with those of the
/// scenes passed on the way up to a known one, to `"default"` or to layers written in full.
/// Where this fails, nothing is recorded. `stack` holds the scenes passed so far, so that a
/// cycle is noticed; after a failure it holds those passed before the scene at fault.
fn resolve(
    name: &str,
    raw: &RawConfig,
    resolved: &mut Vec<(String, Vec<String>)>,
    stack: &mut Vec<String>,
) -> (r: Result<Vec<String>, ConfigError>)
    requires
        resolved_well(raw@, old(resolved)@),
        trail_leads_to(raw@, text::texts(old(stack)@), name@),
        old(stack)@.len() <= raw.scenes@.len(),
        name@ == "default"@ ==> text::keys(old(resolved)@).contains(name@),
    ensures
        resolved_well(raw@, final(resolved)@),
        old(resolved)@.is_prefix_of(final(resolved)@),
        match r {
            Ok(layers) => {
                let known = text::keys(old(resolved)@);
                let after = text::keys(final(resolved)@);
                &&& raw@.outcome(name@) == Ok::<Seq<Seq<char>>, Fault>(text::texts(layers@))
                &&& after.contains(name@)
                &&& known.contains(name@) ==> final(resolved)@ == old(resolved)@
                &&& forall|other: Seq<char>| #[trigger]
                    after.contains(other) <==> known.contains(other) || is_passed(
                        raw@,
                        known,
                        name@,
                        other,
                    )
                &&& !known.contains(name@) && raw@.inherits(name@) && raw@.parent(name@)
                    != "default"@ ==> after.contains(raw@.parent(name@))
                &&& final(stack)@ == old(stack)@
            },
            Err(e) => {
                &&& raw@.outcome(origin(text::texts(old(stack)@), name@)) == Err::<
                    Seq<Seq<char>>,
                    Fault,
                >(e@)
                &&& final(resolved)@ == old(resolved)@
                &&& exists|k: nat|
                    {
                        &&& raw@.climbs(name@, k)
                        &&& #[trigger] raw@.ancestor(name@, k) == culprit(e@)
                        &&& text::texts(final(stack)@) == text::texts(old(stack)@) + way_up(
                            raw@,
                            name@,
                            k,
                        )
                    }
            },
        },
    decreases raw.scenes@.len() - old(stack)@.len(),
{
    let ghost rules = raw@;
    let ghost trail = text::texts(stack@);
    let ghost start = origin(trail, name@);
    let ghost known_before = text::keys(resolved@);
    proof {
        assert(rules.ancestor(name@, 0) == name@);
        assert(trail + way_up(rules, name@, 0) =~= trail);
        text::position_is_first(text::keys(resolved@), name@);
        text::position_is_first(text::keys(raw.scenes@), name@);
        text::position_is_first(trail, name@);
        trail_climbs(rules, trail, name@);
    }
    let known: usize = text::find_key(resolved, name);
    if known < resolved.len() {
        let layers: Vec<String> = text::copy(&resolved[known].1);
        assert(text::keys(resolved@)[known as int] == name@);
        proof {
            nothing_passed(rules, known_before, name@);
        }
        return Ok(layers);
    }
    assert(name@ != "default"@);
    if text::find(stack, name) < stack.len() {
        proof {
            let j = text::position(trail, name@);
            assert(rules.ancestor(start, j as nat) == rules.ancestor(start, trail.len()));
            assert(rules.recurs(start, trail.len()));
            outcome_of_returning(rules, start, trail.len());
        }
        return Err(ConfigError::Cycle(name.to_owned()));
    }
    let at: usize = text::find_key(&raw.scenes, name);
    if at >= raw.scenes.len() {
        proof {
            assert(rules.dangles(start, trail.len()));
            outcome_of_dangling(rules, start, trail.len());
        }
        return Err(ConfigError::Undefined(name.to_owned()));
    }
    let scene: &RawScene = &raw.scenes[at].1;
    assert(rules.scenes[name@] == scene@);
    let layers: Vec<String> = match &scene.layers {
        Some(list) => {
            let own: Vec<String> = text::copy(list);
            proof {
                layers_are_final(rules, name@);
            }
            own
        },
        None => {
            let base_name: &str = match &scene.extends {
                Some(base) => base.as_str(),
                None => "default",
            };
            assert(base_name@ == rules.parent(name@));
            let base: Vec<String> = if text::same(base_name, "default") {
                proof {
                    default_scene_is_fixed(rules);
                    nothing_passed(rules, known_before, base_name@);
                }
                text::copy(&raw.default)
            } else {
                stack.push(name.to_owned());
                proof {
                    let longer = text::texts(stack@);
                    assert(longer =~= trail.push(name@));
                    assert(origin(longer, base_name@) == start);
                    assert(longer.no_duplicates());
                    scenes_are_finite(*raw);
                    assert forall|j: int| 0 <= j < longer.len() implies rules.scenes.contains_key(
                        #[trigger] longer[j],
                    ) by {
                        if j < trail.len() {
                            assert(rules.inherits(trail[j]));
                        }
                    }
                    trail_fits(rules, longer);
                    assert forall|j: int| 0 <= j < longer.len() implies {
                        &&& #[trigger] longer[j] == rules.ancestor(start, j as nat)
                        &&& rules.inherits(longer[j])
                    } by {
                        if j < trail.len() {
                            assert(longer[j] == trail[j]);
                        }
                    }
                    assert(trail_leads_to(rules, longer, base_name@));
                }
                match resolve(base_name, raw, resolved, stack) {
                    Ok(base) => {
                        let _ = stack.pop();
                        assert(stack@ =~= old(stack)@);
                        base
                    },
                    Err(e) => {
                        proof {
                            way_continues(rules, name@, base_name@, trail, text::texts(stack@), e@);
                        }
                        return Err(e);
                    },
                }
            };
            let mut list: Vec<String> = base;
            let mut added: Vec<String> = text::copy(&scene.add);
            let ghost base_texts = text::texts(list@);
            list.append(&mut added);
            proof {
                extending_appends(rules, name@);
                assert(text::texts(list@) =~= base_texts + rules.scenes[name@].add);
            }
            list
        },
    };
    let ghost before = text::keys(resolved@);
    record(raw, resolved, name, &layers);
    proof {
        passed_by_step(rules, known_before, name@);
        let after = text::keys(resolved@);
        assert forall|other: Seq<char>| #[trigger]
            after.contains(other) <==> before.contains(other) || other == name@ by {
            if after.contains(other) && other != name@ && after != before {
                let i = choose|i: int| 0 <= i < after.len() && after[i] == other;
                assert(before[i] == other);
            }
            if before.contains(other) && after != before {
                let i = choose|i: int| 0 <= i < before.len() && before[i] == other;
                assert(after[i] == other);
            }
            if after != before {
                assert(after[before.len() as int] == name@);
            }
        }
    }
    Ok(layers)
}

/// The layers that each scene allows.
pub struct Config {
    /// The scenes, `"default"` included, with their layers.
    resolved: Vec<(String, Vec<String>)>,
}

/// The layers of a scene: those of `"default"` if the scene is not known.
pub open spec fn layers_in_force(
    table: Map<Seq<char>, Seq<Seq<char>>>,
    scene: Seq<char>,
) -> Seq<Seq<char>> {
    if table.contains_key(scene) {
        table[scene]
    } else {
        table["default"@]
    }
}

/// Whether `name` is the name of a scene other than `"default"`.
pub open spec fn is_scene(table: Map<Seq<char>, Seq<Seq<char>>>, name: Seq<char>) -> bool {
    table.contains_key(name) && name != "default"@
}

impl View for Config {
    type V = Map<Seq<char>, Seq<Seq<char>>>;

    closed spec fn view(&self) -> Map<Seq<char>, Seq<Seq<char>>> {
        let names = text::keys(self.resolved@);
        Map::new(
            |name: Seq<char>| names.contains(name),
            |name: Seq<char>| text::texts(self.resolved@[text::position(names, name)].1@),
        )
    }
}

/// Where the configuration is read from, given the values of `FB_SERVER_CONFIG`,
/// `XDG_CONFIG_HOME` and `HOME`. The first two count only if they are not empty.
pub open spec fn config_location(
    explicit: Option<Seq<char>>,
    config_home: Option<Seq<char>>,
    home: Option<Seq<char>>,
) -> Result<Seq<char>, Fault> {
    if explicit is Some && explicit->0.len() > 0 {
        Ok(explicit->0)
    } else if config_home is Some && config_home->0.len() > 0 {
        Ok(text::joined(config_home->0, "fb-server/scenes.toml"@))
    } else if home is Some {
        Ok(text::joined(home->0, ".config/fb-server/scenes.toml"@))
    } else {
        Err(Fault::HomeUnset)
    }
}

impl Config {
    /// The path of the configuration, given the values of the environment variables
    /// `FB_SERVER_CONFIG`, `XDG_CONFIG_HOME` and `HOME`, in the order in which they count.
    pub fn default_path(
        fb_server_config: Option<&str>,
        xdg_config_home: Option<&str>,
        home: Option<&str>,
    ) -> (r: Result<String, ConfigError>)
        ensures
            match r {
                Ok(path) => config_location(
                    text::text_of(fb_server_config),
                    text::text_of(xdg_config_home),
                    text::text_of(home),
                ) == Ok::<Seq<char>, Fault>(path@),
                Err(e) => config_location(
                    text::text_of(fb_server_config),
                    text::text_of(xdg_config_home),
                    text::text_of(home),
                ) == Err::<Seq<char>, Fault>(e@),
            },
    {
        if let Some(path) = fb_server_config {
            if !path.is_empty() {
                return Ok(path.to_owned());
            }
        }
        if let Some(dir) = xdg_config_home {
            if !dir.is_empty() {
                return Ok(text::join_path(dir, "fb-server/scenes.toml"));
            }
        }
        match home {
            Some(dir) => Ok(text::join_path(dir, ".config/fb-server/scenes.toml")),
            None => Err(ConfigError::HomeUnset),
        }
    }

    #[verifier::type_invariant]
    spec fn well_formed(self) -> bool {
        &&& text::keys(self.resolved@).no_duplicates()
        &&& text::keys(self.resolved@).contains("default"@)
    }

    /// Determines the layers of every scene. The first scene in the list whose layers
    /// cannot be determined makes it fail.
    pub fn parse(raw: &RawConfig) -> (r: Result<Config, ConfigError>)
        ensures
            r is Ok <==> raw@.sound(),
            match r {
                Ok(config) => config@ == raw@.table(),
                Err(e) => exists|i: int| #![trigger raw.scenes@[i]]
                    {
                        &&& 0 <= i < raw.scenes@.len()
                        &&& raw@.outcome(raw.scenes@[i].0@) == Err::<Seq<Seq<char>>, Fault>(e@)
                        &&& forall|j: int|
                            0 <= j < i ==> raw@.outcome((#[trigger] raw.scenes@[j]).0@) is Ok
                    },
            },
    {
        let ghost rules = raw@;
        let ghost names = text::keys(raw.scenes@);
        let mut resolved: Vec<(String, Vec<String>)> = Vec::new();
        let first: (String, Vec<String>) = ("default".to_owned(), text::copy(&raw.default));
        resolved.push(first);
        proof {
            default_scene_is_fixed(rules);
            assert(text::keys(resolved@)[0] == "default"@);
        }
        let n: usize = raw.scenes.len();
        let mut i: usize = 0;
        while i < n
            invariant
                i <= n,
                n == raw.scenes@.len(),
                rules == raw@,
                names == text::keys(raw.scenes@),
                resolved_well(rules, resolved@),
                text::keys(resolved@).contains("default"@),
                forall|j: int| 0 <= j < i ==> text::keys(resolved@).contains(#[trigger] names[j]),
                forall|j: int|
                    0 <= j < i ==> rules.outcome((#[trigger] raw.scenes@[j]).0@) is Ok,
            decreases n - i,
        {
            let mut stack: Vec<String> = Vec::new();
            let name: &str = raw.scenes[i].0.as_str();
            let ghost before = resolved@;
            assert(rules.ancestor(name@, 0) == name@);
            assert(names[i as int] == name@);
            match resolve(name, raw, &mut resolved, &mut stack) {
                Ok(_) => {
                    proof {
                        assert forall|j: int| 0 <= j < i + 1 implies text::keys(resolved@).contains(
                            #[trigger] names[j],
                        ) by {
                            if j < i {
                                let known = text::keys(before);
                                let k = choose|k: int| 0 <= k < known.len() && known[k] == names[j];
                                assert(text::keys(resolved@)[k] == names[j]);
                            }
                        }
                    }
                },
                Err(e) => {
                    assert(raw.scenes@[i as int].0@ == name@);
                    assert(rules.scenes.contains_key(name@));
                    return Err(e);
                },
            }
            i += 1;
        }
        let config: Config = Config { resolved };
        proof {
            let found = text::keys(config.resolved@);
            assert forall|name: Seq<char>| #[trigger] rules.scenes.contains_key(name) implies
                rules.outcome(name) is Ok by {
                let j = choose|j: int| 0 <= j < names.len() && names[j] == name;
                assert(rules.outcome(raw.scenes@[j].0@) is Ok);
            }
            assert forall|name: Seq<char>| found.contains(name) <==> (name == "default"@
                || rules.scenes.contains_key(name)) by {
                if found.contains(name) {
                    let k = choose|k: int| 0 <= k < found.len() && found[k] == name;
                    assert(found[k] == "default"@ || rules.scenes.contains_key(found[k]));
                }
                if rules.scenes.contains_key(name) {
                    let j = choose|j: int| 0 <= j < names.len() && names[j] == name;
                    assert(found.contains(names[j]));
                }
            }
            assert forall|name: Seq<char>| #[trigger] config@.contains_key(name) implies config@[name]
                == rules.table()[name] by {
                text::position_is_first(found, name);
                let k = text::position(found, name);
                assert(found[k] == name);
            }
            assert(config@ =~= rules.table());
        }
        Ok(config)
    }

    /// The layers that a scene allows; those of `"default"` for an unknown scene.
    pub fn layers_for(&self, scene: &str) -> (layers: &[String])
        ensures
            text::texts(layers@) == layers_in_force(self@, scene@),
    {
        let ghost names = text::keys(self.resolved@);
        proof {
            use_type_invariant(self);
            text::position_is_first(names, scene@);
            text::position_is_first(names, "default"@);
        }
        let at: usize = text::find_key(&self.resolved, scene);
        if at < self.resolved.len() {
            return self.resolved[at].1.as_slice();
        }
        let fallback: usize = text::find_key(&self.resolved, "default");
        self.resolved[fallback].1.as_slice()
    }

    /// The names of the scenes other than `"default"`, each once. A client that says
    /// hello with one of these names puts that scene in force.
    pub fn scene_names(&self) -> (names: Vec<&str>)
        ensures
            text::slices(names@).no_duplicates(),
            forall|name: Seq<char>| #[trigger]
                text::slices(names@).contains(name) <==> is_scene(self@, name),
    {
        proof {
            use_type_invariant(self);
        }
        let ghost known = text::keys(self.resolved@);
        let mut names: Vec<&str> = Vec::new();
        let n: usize = self.resolved.len();
        let mut i: usize = 0;
        while i < n
            invariant
                i <= n,
                n == self.resolved@.len(),
                known == text::keys(self.resolved@),
                known.no_duplicates(),
                text::slices(names@).no_duplicates(),
                forall|name: Seq<char>| #[trigger]
                    text::slices(names@).contains(name) <==> known.take(i as int).contains(name)
                        && name != "default"@,
            decreases n - i,
        {
            let name: &str = self.resolved[i].0.as_str();
            let ghost before = text::slices(names@);
            let ghost seen = known.take(i as int);
            assert(known.take(i + 1) =~= seen.push(name@));
            assert(!seen.contains(name@)) by {
                if seen.contains(name@) {
                    let k = choose|k: int| 0 <= k < seen.len() && seen[k] == name@;
                    assert(known[k] == known[i as int]);
                }
            }
            proof {
                broadcast use vstd::seq_lib::group_seq_properties;

            }
            if !text::same(name, "default") {
                names.push(name);
                assert(!before.contains(name@));
                assert(text::slices(names@) =~= before.push(name@));
                assert forall|a: int, b: int|
                    0 <= a < before.len() + 1 && 0 <= b < before.len() + 1 && a != b implies before.push(
                    name@,
                )[a] != before.push(name@)[b] by {
                    assert(a < before.len() ==> before.contains(before[a]));
                    assert(b < before.len() ==> before.contains(before[b]));
                }
            }
            i += 1;
        }
        assert(known.take(n as int) =~= known);
        names
    }
}

/// A scene as it is written down holds what its fields hold.
pub proof fn rule_holds_the_fields(scene: RawScene, k: int)
    ensures
        scene@.extends is Some <==> scene.extends is Some,
        scene.extends is Some ==> scene@.extends->0 == scene.extends->0@,
        scene@.add.len() == scene.add@.len(),
        0 <= k < scene.add@.len() ==> scene@.add[k] == scene.add@[k]@,
        scene@.layers is Some <==> scene.layers is Some,
        scene.layers is Some ==> scene@.layers->0.len() == scene.layers->0@.len(),
        scene.layers is Some && 0 <= k < scene.layers->0@.len() ==> scene@.layers->0[k]
            == scene.layers->0@[k]@,
{
}

/// A name stands for the first scene listed under it, and for nothing if there is none.
pub proof fn first_scene_of_a_name_counts(raw: RawConfig, name: Seq<char>, k: int)
    requires
        0 <= k <= raw.scenes@.len(),
        forall|j: int| 0 <= j < k ==> (#[trigger] raw.scenes@[j]).0@ != name,
    ensures
        k == raw.scenes@.len() ==> !raw@.scenes.contains_key(name),
        k < raw.scenes@.len() && raw.scenes@[k].0@ == name ==> raw@.scenes.contains_key(name)
            && raw@.scenes[name] == raw.scenes@[k].1@,
{
    let names = text::keys(raw.scenes@);
    text::position_is_first(names, name);
    assert forall|j: int| 0 <= j < k implies #[trigger] names[j] != name by {
        assert(raw.scenes@[j].0@ != name);
    }
    if k < raw.scenes@.len() && raw.scenes@[k].0@ == name {
        assert(names[k] == name);
    }
}

/// The default layers are those listed as such.
pub proof fn default_layers_are_listed(raw: RawConfig, k: int)
    ensures
        raw@.default.len() == raw.default@.len(),
        0 <= k < raw.default@.len() ==> raw@.default[k] == raw.default@[k]@,
{
}

/// An error names the scene it is about.
pub proof fn fault_names_the_scene(name: String)
    ensures
        ConfigError::HomeUnset@ == Fault::HomeUnset,
        ConfigError::Cycle(name)@ == Fault::Cycle(name@),
        ConfigError::Undefined(name)@ == Fault::Undefined(name@),
{
}

/// A scene without `layers` allows the layers of the scene named by its `extends`, as that
/// scene has them, followed by those of its `add`; without `extends` it is the default layers
/// that those of `add` follow. What is wrong with the extended scene is wrong with it, too.
pub proof fn added_layers_follow_the_extended_ones(rules: Rules, name: Seq<char>, base: Seq<char>)
    requires
        name != "default"@,
        rules.scenes.contains_key(name),
        rules.scenes[name].layers is None,
    ensures
        rules.scenes[name].extends is None ==> rules.outcome(name) == Ok::<Seq<Seq<char>>, Fault>(
            rules.default + rules.scenes[name].add,
        ),
        rules.scenes[name].extends == Some(base) ==> match rules.outcome(base) {
            Ok(layers) => rules.outcome(name) == Ok::<Seq<Seq<char>>, Fault>(
                layers + rules.scenes[name].add,
            ),
            Err(Fault::Undefined(missing)) => rules.outcome(name) == Err::<Seq<Seq<char>>, Fault>(
                Fault::Undefined(missing),
            ),
            Err(_) => rules.outcome(name) is Err && rules.outcome(name)->Err_0 is Cycle,
        },
{
    extending_appends(rules, name);
    default_scene_is_fixed(rules);
    if rules.scenes[name].extends == Some(base) && rules.outcome(base) is Err {
        assert(rules.parent(name) == base);
        if exists|k: nat| rules.dangles(base, k) {
            let k = choose|k: nat| rules.dangles(base, k);
            outcome_of_dangling(rules, base, k);
            dangling_parent(rules, name, k);
            outcome_of_dangling(rules, name, k + 1);
            ancestor_of_parent(rules, name, k);
        } else if exists|k: nat| rules.dangles(name, k) {
            let k = choose|k: nat| rules.dangles(name, k);
            assert(rules.ancestor(name, 0) == name);
            assert(k > 0);
            let up = (k - 1) as nat;
            assert forall|j: nat| j < up implies rules.inherits(#[trigger] rules.ancestor(base, j)) by {
                ancestor_of_parent(rules, name, j);
                assert(rules.inherits(rules.ancestor(name, j + 1)));
            }
            ancestor_of_parent(rules, name, up);
            assert(rules.dangles(base, up));
        }
    }
}

proof fn dangling_parent(rules: Rules, name: Seq<char>, k: nat)
    requires
        rules.inherits(name),
        rules.dangles(rules.parent(name), k),
    ensures
        rules.dangles(name, k + 1),
{
    assert forall|j: nat| j < k + 1 implies rules.inherits(#[trigger] rules.ancestor(name, j)) by {
        if j == 0 {
            assert(rules.ancestor(name, 0) == name);
        } else {
            ancestor_of_parent(rules, name, (j - 1) as nat);
            assert(rules.inherits(rules.ancestor(rules.parent(name), (j - 1) as nat)));
        }
    }
    ancestor_of_parent(rules, name, k);
}

/// In an accepted configuration every scene has exactly the layers its rule calls for: those
/// of `layers`; or else those of the scene it extends, which is known, followed by those of
/// `add`; or else the default ones, followed by those of `add`. Besides these scenes there is
/// only `"default"`, with the default layers.
pub proof fn table_follows_the_rules(rules: Rules, name: Seq<char>, base: Seq<char>)
    requires
        rules.sound(),
    ensures
        rules.table().contains_key(name) <==> name == "default"@ || rules.scenes.contains_key(name),
        rules.table()["default"@] == rules.default,
        name != "default"@ && rules.scenes.contains_key(name) && rules.scenes[name].layers is Some
            ==> rules.table()[name] == rules.scenes[name].layers->0,
        name != "default"@ && rules.scenes.contains_key(name) && rules.scenes[name].layers is None
            && rules.scenes[name].extends is None ==> rules.table()[name] == rules.default
            + rules.scenes[name].add,
        name != "default"@ && rules.scenes.contains_key(name) && rules.scenes[name].layers is None
            && rules.scenes[name].extends == Some(base) ==> rules.table().contains_key(base)
            && rules.table()[name] == rules.table()[base] + rules.scenes[name].add,
{
    default_scene_is_fixed(rules);
    if name != "default"@ && rules.scenes.contains_key(name) {
        assert(rules.outcome(name) is Ok);
        if rules.scenes[name].layers is Some {
            layers_are_final(rules, name);
        } else {
            added_layers_follow_the_extended_ones(rules, name, base);
            if rules.scenes[name].extends == Some(base) && rules.undefined(base) {
                undefined_base_is_rejected(rules, name);
            }
        }
    }
}

/// A configuration is accepted if `extends` always leads to `"default"` or to a defined scene
/// of lesser depth, for some way of giving each scene a depth: every scene then has layers.
pub proof fn grounded_configuration_is_accepted(rules: Rules, depth: spec_fn(Seq<char>) -> nat)
    requires
        forall|name: Seq<char>| #[trigger]
            rules.scenes.contains_key(name) && name != "default"@ && rules.scenes[name].layers is None
                && rules.scenes[name].extends is Some && rules.scenes[name].extends->0 != "default"@
                ==> rules.scenes.contains_key(rules.scenes[name].extends->0) && depth(
                rules.scenes[name].extends->0,
            ) < depth(name),
    ensures
        rules.sound(),
{
    assert forall|name: Seq<char>| #[trigger] rules.scenes.contains_key(name) implies rules.outcome(
        name,
    ) is Ok by {
        grounded_scene_has_layers(rules, depth, name);
    }
}

proof fn grounded_scene_has_layers(
    rules: Rules,
    depth: spec_fn(Seq<char>) -> nat,
    name: Seq<char>,
)
    requires
        forall|name: Seq<char>| #[trigger]
            rules.scenes.contains_key(name) && name != "default"@ && rules.scenes[name].layers is None
                && rules.scenes[name].extends is Some && rules.scenes[name].extends->0 != "default"@
                ==> rules.scenes.contains_key(rules.scenes[name].extends->0) && depth(
                rules.scenes[name].extends->0,
            ) < depth(name),
        rules.scenes.contains_key(name),
    ensures
        rules.outcome(name) is Ok,
    decreases depth(name),
{
    default_scene_is_fixed(rules);
    if name != "default"@ {
        if rules.scenes[name].layers is Some {
            layers_are_final(rules, name);
        } else {
            extending_appends(rules, name);
            if rules.parent(name) != "default"@ {
                grounded_scene_has_layers(rules, depth, rules.parent(name));
            }
        }
    }
}

/// In an accepted configuration every scene has a depth, which grows along `extends`, and
/// every extended scene is defined: there is neither a cycle nor an undefined scene.
pub proof fn accepted_configuration_is_grounded(rules: Rules) -> (depth: spec_fn(
    Seq<char>,
) -> nat)
    requires
        rules.sound(),
    ensures
        forall|name: Seq<char>| #[trigger]
            rules.scenes.contains_key(name) && name != "default"@ && rules.scenes[name].layers is None
                && rules.scenes[name].extends is Some && rules.scenes[name].extends->0 != "default"@
                ==> rules.scenes.contains_key(rules.scenes[name].extends->0) && depth(
                rules.scenes[name].extends->0,
            ) < depth(name),
{
    let depth = |name: Seq<char>| choose|k: nat| rules.resolves(name, k);
    assert forall|name: Seq<char>| #[trigger]
        rules.scenes.contains_key(name) && name != "default"@ && rules.scenes[name].layers is None
            && rules.scenes[name].extends is Some && rules.scenes[name].extends->0
            != "default"@ implies rules.scenes.contains_key(rules.scenes[name].extends->0) && depth(
        rules.scenes[name].extends->0,
    ) < depth(name) by {
        let base = rules.scenes[name].extends->0;
        table_follows_the_rules(rules, name, base);
        assert(rules.scenes.contains_key(base));
        assert(rules.outcome(base) is Ok && rules.outcome(name) is Ok);
        let k = choose|k: nat| rules.resolves(base, k);
        assert(rules.resolves(base, k));
        resolving_parent(rules, name, k);
        let c = choose|c: nat| rules.resolves(name, c);
        ends_agree(rules, name, c, k + 1);
        assert(depth(base) == k && depth(name) == c);
    }
    depth
}

/// Following `extends` along a list of scenes leads through them in turn.
proof fn path_is_climbed(rules: Rules, path: Seq<Seq<char>>, k: nat)
    requires
        0 < k <= path.len(),
        forall|j: int|
            0 <= j < path.len() ==> (#[trigger] path[j]) != "default"@ && rules.scenes.contains_key(
                path[j],
            ) && rules.scenes[path[j]].layers is None && rules.scenes[path[j]].extends is Some,
        forall|j: int|
            0 <= j < path.len() - 1 ==> rules.scenes[#[trigger] path[j]].extends->0 == path[j + 1],
    ensures
        rules.climbs(path[0], k),
        forall|j: nat| j < k ==> #[trigger] rules.ancestor(path[0], j) == path[j as int],
        rules.ancestor(path[0], k) == rules.scenes[path[k - 1]].extends->0,
    decreases k,
{
    assert(rules.ancestor(path[0], 0) == path[0]);
    if k > 1 {
        path_is_climbed(rules, path, (k - 1) as nat);
        assert(rules.scenes[path[k - 2]].extends->0 == path[k - 2 + 1]);
    }
    assert(rules.ancestor(path[0], (k - 1) as nat) == path[k - 1]);
    assert forall|j: nat| j < k implies rules.inherits(#[trigger] rules.ancestor(path[0], j)) by {
        assert(path[j as int] != "default"@);
    }
    assert(path[k - 1] != "default"@);
}

/// Scenes that extend one another in turn, the last of them one of those before it or itself,
/// are rejected as a cycle, and the scene named is the one that is come back to.
pub proof fn scenes_extending_in_a_circle_are_rejected(rules: Rules, path: Seq<Seq<char>>, m: int)
    requires
        0 <= m < path.len(),
        path.no_duplicates(),
        forall|j: int|
            0 <= j < path.len() ==> (#[trigger] path[j]) != "default"@ && rules.scenes.contains_key(
                path[j],
            ) && rules.scenes[path[j]].layers is None && rules.scenes[path[j]].extends is Some,
        forall|j: int|
            0 <= j < path.len() - 1 ==> rules.scenes[#[trigger] path[j]].extends->0 == path[j + 1],
        rules.scenes[path[path.len() - 1]].extends->0 == path[m],
    ensures
        rules.outcome(path[0]) == Err::<Seq<Seq<char>>, Fault>(Fault::Cycle(path[m])),
        !rules.sound(),
{
    path_is_climbed(rules, path, path.len());
    assert(rules.ancestor(path[0], m as nat) == rules.ancestor(path[0], path.len()));
    assert(rules.recurs(path[0], path.len()));
    outcome_of_returning(rules, path[0], path.len());
    assert(rules.scenes.contains_key(path[0]));
}

/// Scenes that extend one another in turn, the last of them an undefined scene, are rejected,
/// and the scene named is the undefined one.
pub proof fn scenes_extending_an_undefined_one_are_rejected(
    rules: Rules,
    path: Seq<Seq<char>>,
    missing: Seq<char>,
)
    requires
        path.len() > 0,
        forall|j: int|
            0 <= j < path.len() ==> (#[trigger] path[j]) != "default"@ && rules.scenes.contains_key(
                path[j],
            ) && rules.scenes[path[j]].layers is None && rules.scenes[path[j]].extends is Some,
        forall|j: int|
            0 <= j < path.len() - 1 ==> rules.scenes[#[trigger] path[j]].extends->0 == path[j + 1],
        rules.scenes[path[path.len() - 1]].extends->0 == missing,
        missing != "default"@,
        !rules.scenes.contains_key(missing),
    ensures
        rules.outcome(path[0]) == Err::<Seq<Seq<char>>, Fault>(Fault::Undefined(missing)),
        !rules.sound(),
{
    path_is_climbed(rules, path, path.len());
    assert(rules.dangles(path[0], path.len()));
    outcome_of_dangling(rules, path[0], path.len());
    assert(rules.scenes.contains_key(path[0]));
}

/// A known scene has its own layers, any other one those of `"default"`; only a known scene
/// other than `"default"` is put in force by a client of its name.
pub proof fn unknown_scene_has_the_default_layers(
    table: Map<Seq<char>, Seq<Seq<char>>>,
    scene: Seq<char>,
)
    ensures
        table.contains_key(scene) ==> layers_in_force(table, scene) == table[scene],
        !table.contains_key(scene) ==> layers_in_force(table, scene) == table["default"@],
        table.contains_key(scene) && scene != "default"@ ==> is_scene(table, scene),
        !table.contains_key(scene) ==> !is_scene(table, scene),
        !is_scene(table, "default"@),
{
}

/// The path that is given counts, if it is not empty; otherwise the configuration is in the
/// configuration directory, if one is given and not empty; otherwise in the home directory;
/// and without one of these there is none.
pub proof fn configuration_paths_count_in_order(
    path: Seq<char>,
    dir: Seq<char>,
    home: Seq<char>,
    config_home: Option<Seq<char>>,
    any: Option<Seq<char>>,
)
    requires
        path.len() > 0,
        dir.len() > 0,
    ensures
        config_location(Some(path), config_home, any) == Ok::<Seq<char>, Fault>(path),
        config_location(None, Some(dir), any) == Ok::<Seq<char>, Fault>(
            text::joined(dir, "fb-server/scenes.toml"@),
        ),
        config_location(Some(Seq::empty()), Some(dir), any) == Ok::<Seq<char>, Fault>(
            text::joined(dir, "fb-server/scenes.toml"@),
        ),
        config_location(None, None, Some(home)) == Ok::<Seq<char>, Fault>(
            text::joined(home, ".config/fb-server/scenes.toml"@),
        ),
        config_location(Some(Seq::empty()), None, Some(home)) == Ok::<Seq<char>, Fault>(
            text::joined(home, ".config/fb-server/scenes.toml"@),
        ),
        config_location(None, Some(Seq::empty()), Some(home)) == Ok::<Seq<char>, Fault>(
            text::joined(home, ".config/fb-server/scenes.toml"@),
        ),
        config_location(Some(Seq::empty()), Some(Seq::empty()), Some(home)) == Ok::<
            Seq<char>,
            Fault,
        >(text::joined(home, ".config/fb-server/scenes.toml"@)),
        config_location(None, None, None) == Err::<Seq<char>, Fault>(Fault::HomeUnset),
        config_location(Some(Seq::empty()), None, None) == Err::<Seq<char>, Fault>(
            Fault::HomeUnset,
        ),
        config_location(None, Some(Seq::empty()), None) == Err::<Seq<char>, Fault>(
            Fault::HomeUnset,
        ),
        config_location(Some(Seq::empty()), Some(Seq::empty()), None) == Err::<Seq<char>, Fault>(
            Fault::HomeUnset,
        ),
{
}

/// An accepted configuration relates the layers of its scenes as they are written down: what
/// is asked for under the name of a scene with `layers` is exactly those; under that of a scene
/// that extends another one, what is asked for under the name of the other one, followed by
/// `add`; and under that of a scene that has neither, the default layers, followed by `add`.
pub proof fn layers_are_as_written_down(
    raw: &RawConfig,
    config: Config,
    k: int,
    name: &str,
    layers: &[String],
    base: &str,
    base_layers: &[String],
)
    requires
        call_ensures(Config::parse, (raw,), Ok(config)),
        0 <= k < raw.scenes@.len(),
        raw.scenes@[k].0@ == name@,
        forall|j: int| 0 <= j < k ==> (#[trigger] raw.scenes@[j]).0@ != name@,
        name@ != "default"@,
        call_ensures(Config::layers_for, (&config, name), layers),
        call_ensures(Config::layers_for, (&config, base), base_layers),
    ensures
        raw.scenes@[k].1.layers is Some ==> text::texts(layers@) == text::texts(
            raw.scenes@[k].1.layers->0@,
        ),
        raw.scenes@[k].1.layers is None && raw.scenes@[k].1.extends is Some
            && raw.scenes@[k].1.extends->0@ == base@ ==> text::texts(layers@) == text::texts(
            base_layers@,
        ) + text::texts(raw.scenes@[k].1.add@),
        raw.scenes@[k].1.layers is None && raw.scenes@[k].1.extends is None ==> text::texts(layers@)
            == text::texts(raw.default@) + text::texts(raw.scenes@[k].1.add@),
{
    assert(raw@.sound() && config@ == raw@.table());
    first_scene_of_a_name_counts(*raw, name@, k);
    table_follows_the_rules(raw@, name@, base@);
}

/// The scene `"default"`, and any name that is not that of a scene, has the default layers.
pub proof fn other_names_have_the_default_layers(
    raw: &RawConfig,
    config: Config,
    name: &str,
    layers: &[String],
)
    requires
        call_ensures(Config::parse, (raw,), Ok(config)),
        name@ == "default"@ || forall|j: int|
            0 <= j < raw.scenes@.len() ==> (#[trigger] raw.scenes@[j]).0@ != name@,
        call_ensures(Config::layers_for, (&config, name), layers),
    ensures
        text::texts(layers@) == text::texts(raw.default@),
{
    assert(raw@.sound() && config@ == raw@.table());
    if name@ != "default"@ {
        first_scene_of_a_name_counts(*raw, name@, raw.scenes@.len() as int);
    }
    table_follows_the_rules(raw@, name@, name@);
}

/// The names of the scenes are those under which scenes are written down, each once and
/// without `"default"`.
pub proof fn names_are_as_written_down(
    raw: &RawConfig,
    config: Config,
    names: Vec<&str>,
    name: Seq<char>,
    a: int,
    b: int,
)
    requires
        call_ensures(Config::parse, (raw,), Ok(config)),
        call_ensures(Config::scene_names, (&config,), names),
    ensures
        (exists|i: int| 0 <= i < names@.len() && (#[trigger] names@[i])@ == name) <==> name
            != "default"@ && exists|j: int|
            0 <= j < raw.scenes@.len() && (#[trigger] raw.scenes@[j]).0@ == name,
        0 <= a < b < names@.len() ==> names@[a]@ != names@[b]@,
{
    assert(config@ == raw@.table());
    let listed = text::slices(names@);
    let written = text::keys(raw.scenes@);
    assert(listed.contains(name) <==> is_scene(config@, name));
    if listed.contains(name) {
        let i = choose|i: int| 0 <= i < listed.len() && listed[i] == name;
        assert(names@[i]@ == name);
    }
    if exists|i: int| 0 <= i < names@.len() && (#[trigger] names@[i])@ == name {
        let i = choose|i: int| 0 <= i < names@.len() && (#[trigger] names@[i])@ == name;
        assert(listed[i] == name);
    }
    if written.contains(name) {
        let j = choose|j: int| 0 <= j < written.len() && written[j] == name;
        assert(raw.scenes@[j].0@ == name);
    }
    if exists|j: int| 0 <= j < raw.scenes@.len() && (#[trigger] raw.scenes@[j]).0@ == name {
        let j = choose|j: int| 0 <= j < raw.scenes@.len() && (#[trigger] raw.scenes@[j]).0@ == name;
        assert(written[j] == name);
    }
    if 0 <= a < b < names@.len() {
        assert(listed[a] != listed[b]);
    }
}

/// Of the scenes whose layers cannot be determined, the one listed first is reported.
pub proof fn first_faulty_scene_is_reported(raw: &RawConfig, e: ConfigError, i: int)
    requires
        call_ensures(Config::parse, (raw,), Err(e)),
        0 <= i < raw.scenes@.len(),
        raw@.outcome(raw.scenes@[i].0@) is Err,
        forall|j: int| 0 <= j < i ==> raw@.outcome((#[trigger] raw.scenes@[j]).0@) is Ok,
    ensures
        raw@.outcome(raw.scenes@[i].0@)->Err_0 == e@,
{
    let first = choose|first: int|
        #![trigger raw.scenes@[first]]
        {
            &&& 0 <= first < raw.scenes@.len()
            &&& raw@.outcome(raw.scenes@[first].0@) == Err::<Seq<Seq<char>>, Fault>(e@)
            &&& forall|j: int|
                0 <= j < first ==> raw@.outcome((#[trigger] raw.scenes@[j]).0@) is Ok
        };
    if first < i {
        assert(raw@.outcome(raw.scenes@[first].0@) is Ok);
    } else if i < first {
        assert(raw@.outcome(raw.scenes@[i].0@) is Ok);
    }
}

/// The environment decides on the configuration: `FB_SERVER_CONFIG` comes before
/// `XDG_CONFIG_HOME`, where what is empty counts as not given, and both before `HOME`, without
/// which it is an error.
pub proof fn environment_decides_on_the_configuration(
    path: Option<&str>,
    dir: Option<&str>,
    home: Option<&str>,
    r: Result<String, ConfigError>,
)
    requires
        call_ensures(Config::default_path, (path, dir, home), r),
    ensures
        path is Some && path->0@.len() > 0 ==> r is Ok && r->Ok_0@ == path->0@,
        (path is None || path->0@.len() == 0) && dir is Some && dir->0@.len() > 0 ==> r is Ok
            && r->Ok_0@ == text::joined(dir->0@, "fb-server/scenes.toml"@),
        (path is None || path->0@.len() == 0) && (dir is None || dir->0@.len() == 0)
            && home is Some ==> r is Ok && r->Ok_0@ == text::joined(
            home->0@,
            ".config/fb-server/scenes.toml"@,
        ),
        (path is None || path->0@.len() == 0) && (dir is None || dir->0@.len() == 0)
            && home is None ==> r is Err && r->Err_0 is HomeUnset,
{
}

/// What the user is told names the scene that is at fault.
pub proof fn message_names_the_scene(e: ConfigError, r: String)
    requires
        call_ensures(ConfigError::message, (&e,), r),
    ensures
        e is HomeUnset ==> r@ == "HOME が設定されていません"@,
        e matches ConfigError::Cycle(name) ==> r@ == "scenes.toml: extends の循環参照 ("@ + name@
            + ")"@,
        e matches ConfigError::Undefined(name) ==> r@ == "scenes.toml: 未定義のシーン ("@ + name@
            + ")"@,
{
}

} // verus!
