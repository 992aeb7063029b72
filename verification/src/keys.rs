//! Learned keys: binding a key to a cue or an envelope trigger, and firing
//! them.
//!
//! A key is named by its keystroke text (`"a"`, `"shift-t"`). Each key fires
//! at most one action, and binding a key to an action takes that action away
//! from whichever key had it before, so an action is fired by one key at most.
use vstd::prelude::*;

use crate::graph::{has_key, insert_param, keys_sorted, lemma_params_map_sorted_contains, params_map};
use crate::text::{chars_eq_str, chars_of, chars_of_string, seq_lt, string_eq};

verus! {

/// What a learned key does.
#[derive(Clone, Debug)]
pub enum KeyAction {
    /// Gate the envelopes listening to `trigger` while the key is held.
    Trigger { trigger: String },
    /// Jump to the cue with this id.
    Cue { id: u32 },
}

/// What a [`KeyAction`] says, as plain values.
pub enum ActionModel {
    Trigger(Seq<char>),
    Cue(u32),
}

impl View for KeyAction {
    type V = ActionModel;

    open spec fn view(&self) -> ActionModel {
        match self {
            KeyAction::Trigger { trigger } => ActionModel::Trigger(trigger@),
            KeyAction::Cue { id } => ActionModel::Cue(*id),
        }
    }
}

impl KeyAction {
    /// A copy of this action.
    pub fn copy(&self) -> (r: KeyAction)
        ensures
            r == *self,
    {
        match self {
            KeyAction::Trigger { trigger } => KeyAction::Trigger { trigger: trigger.clone() },
            KeyAction::Cue { id } => KeyAction::Cue { id: *id },
        }
    }

    /// Do both actions do the same thing?
    pub fn same(&self, other: &KeyAction) -> (r: bool)
        ensures
            r == (self@ == other@),
    {
        match (self, other) {
            (KeyAction::Trigger { trigger: a }, KeyAction::Trigger { trigger: b }) => string_eq(a, b),
            (KeyAction::Cue { id: a }, KeyAction::Cue { id: b }) => *a == *b,
            _ => false,
        }
    }
}

/// Keys the transport owns: learning refuses them.
pub open spec fn is_reserved(key: Seq<char>) -> bool {
    ||| key == "space"@
    ||| key == "escape"@
    ||| key == "home"@
    ||| key == "["@
    ||| key == "]"@
    ||| key == "enter"@
    ||| key == "l"@
    ||| key == "e"@
    ||| key == "t"@
    ||| key == "shift-t"@
}

/// Is `key` owned by the transport?
pub fn reserved_key(key: &str) -> (r: bool)
    ensures
        r == is_reserved(key@),
{
    let k = chars_of(key);
    chars_eq_str(&k, "space") || chars_eq_str(&k, "escape") || chars_eq_str(&k, "home")
        || chars_eq_str(&k, "[") || chars_eq_str(&k, "]") || chars_eq_str(&k, "enter")
        || chars_eq_str(&k, "l") || chars_eq_str(&k, "e") || chars_eq_str(&k, "t")
        || chars_eq_str(&k, "shift-t")
}

/// The bindings left after taking `action` away from every key.
pub open spec fn without_action(m: Map<Seq<char>, ActionModel>, action: ActionModel) -> Map<
    Seq<char>,
    ActionModel,
> {
    Map::new(|k: Seq<char>| m.contains_key(k) && m[k] != action, |k: Seq<char>| m[k])
}

/// The bindings after binding `key` to `action`.
pub open spec fn bound(m: Map<Seq<char>, ActionModel>, key: Seq<char>, action: ActionModel) -> Map<
    Seq<char>,
    ActionModel,
> {
    without_action(m, action).insert(key, action)
}

/// After binding `key` to `action`, `key` fires `action` and no other key
/// does.
pub proof fn law_bound_key_is_the_only_one(
    m: Map<Seq<char>, ActionModel>,
    key: Seq<char>,
    action: ActionModel,
)
    ensures
        bound(m, key, action).contains_key(key),
        bound(m, key, action)[key] == action,
        forall|k: Seq<char>|
            #[trigger] bound(m, key, action).contains_key(k) && bound(m, key, action)[k] == action
                ==> k == key,
{
}

/// Bindings from key to action, kept sorted by key.
pub struct KeyMap {
    entries: Vec<(String, KeyAction)>,
}

impl KeyMap {
    #[verifier::type_invariant]
    spec fn sorted(self) -> bool {
        keys_sorted(self.entries@)
    }

    /// The bindings, as a map from key to action.
    pub closed spec fn bindings(self) -> Map<Seq<char>, ActionModel> {
        params_map(self.entries@).map_values(|a: KeyAction| a@)
    }

    /// No bindings.
    pub fn new() -> (r: KeyMap)
        ensures
            r.bindings() == Map::<Seq<char>, ActionModel>::empty(),
    {
        let r = KeyMap { entries: Vec::new() };
        assert(r.bindings() =~= Map::<Seq<char>, ActionModel>::empty());
        r
    }

    /// The action bound to `key`, if any.
    pub fn action_for(&self, key: &str) -> (r: Option<&KeyAction>)
        ensures
            match r {
                Some(a) => self.bindings().contains_key(key@) && self.bindings()[key@] == a@,
                None => !self.bindings().contains_key(key@),
            },
    {
        proof {
            use_type_invariant(self);
            lemma_params_map_sorted_contains(self.entries@, key@);
        }
        let k = chars_of(key);
        let mut i: usize = 0;
        while i < self.entries.len()
            invariant
                i <= self.entries.len(),
                k@ == key@,
                forall|j: int| 0 <= j < i ==> self.entries@[j].0@ != key@,
            decreases self.entries.len() - i,
        {
            let name = chars_of_string(&self.entries[i].0);
            if crate::text::chars_eq(&name, &k) {
                proof {
                    use_type_invariant(self);
                    lemma_params_map_sorted_contains(self.entries@, key@);
                    assert(params_map(self.entries@)[self.entries@[i as int].0@] == self.entries@[i as int].1);
                }
                return Some(&self.entries[i].1);
            }
            i = i + 1;
        }
        None
    }

    /// The first key, in key order, bound to `action`.
    pub fn key_for_action(&self, action: &KeyAction) -> (r: Option<&str>)
        ensures
            match r {
                Some(k) => {
                    &&& self.bindings().contains_key(k@)
                    &&& self.bindings()[k@] == action@
                    &&& forall|k2: Seq<char>|
                        #[trigger] self.bindings().contains_key(k2) && self.bindings()[k2]
                            == action@ ==> !seq_lt(k2, k@)
                },
                None => forall|k2: Seq<char>|
                    #[trigger] self.bindings().contains_key(k2) ==> self.bindings()[k2] != action@,
            },
    {
        proof {
            use_type_invariant(self);
        }
        let ghost e = self.entries@;
        let mut i: usize = 0;
        while i < self.entries.len()
            invariant
                i <= self.entries.len(),
                e == self.entries@,
                keys_sorted(e),
                forall|j: int| 0 <= j < i ==> e[j].1@ != action@,
            decreases self.entries.len() - i,
        {
            if self.entries[i].1.same(action) {
                proof {
                    lemma_params_map_sorted_contains(e, e[i as int].0@);
                    assert forall|k2: Seq<char>|
                        #[trigger] self.bindings().contains_key(k2) && self.bindings()[k2]
                            == action@ implies !seq_lt(k2, e[i as int].0@) by {
                        lemma_params_map_sorted_contains(e, k2);
                        let j = choose|j: int| 0 <= j < e.len() && e[j].0@ == k2;
                        if j < i {
                            assert(params_map(e)[e[j].0@] == e[j].1);
                        } else if j > i {
                            crate::text::lemma_seq_lt_asymmetric(e[i as int].0@, k2);
                        } else {
                            crate::text::lemma_seq_lt_irreflexive(k2);
                        }
                    }
                }
                return Some(self.entries[i].0.as_str());
            }
            i = i + 1;
        }
        proof {
            assert forall|k2: Seq<char>| #[trigger]
                self.bindings().contains_key(k2) implies self.bindings()[k2] != action@ by {
                lemma_params_map_sorted_contains(e, k2);
                let j = choose|j: int| 0 <= j < e.len() && e[j].0@ == k2;
                assert(params_map(e)[e[j].0@] == e[j].1);
            }
        }
        None
    }

    /// Takes `action` away from every key bound to it.
    pub fn unbind(&mut self, action: &KeyAction)
        ensures
            final(self).bindings() == without_action(old(self).bindings(), action@),
    {
        proof {
            use_type_invariant(&*self);
        }
        let mut entries: Vec<(String, KeyAction)> = Vec::new();
        std::mem::swap(&mut entries, &mut self.entries);
        self.entries = entries_without(&entries, action);
    }

    /// Binds `key` to `action`, taking `action` away from any other key. A
    /// reserved key is refused, and then nothing changes.
    pub fn bind(&mut self, key: &str, action: KeyAction) -> (r: bool)
        ensures
            r == !is_reserved(key@),
            r ==> final(self).bindings() == bound(old(self).bindings(), key@, action@),
            !r ==> final(self).bindings() == old(self).bindings(),
    {
        if reserved_key(key) {
            return false;
        }
        proof {
            use_type_invariant(&*self);
        }
        let mut entries: Vec<(String, KeyAction)> = Vec::new();
        std::mem::swap(&mut entries, &mut self.entries);
        let mut kept = entries_without(&entries, &action);
        let ghost before = kept@;
        insert_param(&mut kept, key.to_string(), action);
        proof {
            assert(params_map(kept@).map_values(|a: KeyAction| a@) =~= params_map(before).map_values(
                |a: KeyAction| a@,
            ).insert(key@, action@));
        }
        self.entries = kept;
        true
    }
}

/// The entries of `entries` not bound to `action`, in order.
fn entries_without(entries: &Vec<(String, KeyAction)>, action: &KeyAction) -> (kept: Vec<(String, KeyAction)>)
    requires
        keys_sorted(entries@),
    ensures
        keys_sorted(kept@),
        params_map(kept@).map_values(|a: KeyAction| a@) == without_action(
            params_map(entries@).map_values(|a: KeyAction| a@),
            action@,
        ),
{
        let ghost e = entries@;
        let mut kept: Vec<(String, KeyAction)> = Vec::new();
        let ghost mut idx: Seq<int> = Seq::empty();
        let mut i: usize = 0;
        while i < entries.len()
            invariant
                e == entries@,
                keys_sorted(e),
                i <= e.len(),
                kept@.len() == idx.len(),
                forall|j: int|
                    0 <= j < idx.len() ==> 0 <= #[trigger] idx[j] < i && kept@[j] == e[idx[j]]
                        && e[idx[j]].1@ != action@,
                forall|a: int, b: int| 0 <= a < b < idx.len() ==> #[trigger] idx[a] < #[trigger] idx[b],
                forall|m: int|
                    0 <= m < i && (#[trigger] e[m]).1@ != action@ ==> exists|j: int|
                        0 <= j < idx.len() && idx[j] == m,
            decreases e.len() - i,
        {
            if !entries[i].1.same(action) {
                let entry = (entries[i].0.clone(), entries[i].1.copy());
                kept.push(entry);
                proof {
                    let ghost old_idx = idx;
                    idx = idx.push(i as int);
                    assert forall|m: int|
                        0 <= m < i + 1 && (#[trigger] e[m]).1@ != action@ implies exists|j: int|
                        0 <= j < idx.len() && idx[j] == m by {
                        if m == i {
                            assert(idx[idx.len() - 1] == m);
                        } else {
                            let j = choose|j: int| 0 <= j < old_idx.len() && old_idx[j] == m;
                            assert(idx[j] == m);
                        }
                    }
                }
            }
            i = i + 1;
        }
        proof {
            lemma_kept_bindings(e, kept@, idx, action@);
        }
        kept
}

/// The entries of `e` whose action is not `action`, picked in order by
/// `idx`, bind what `e` binds less `action`.
proof fn lemma_kept_bindings(
    e: Seq<(String, KeyAction)>,
    kept: Seq<(String, KeyAction)>,
    idx: Seq<int>,
    action: ActionModel,
)
    requires
        keys_sorted(e),
        kept.len() == idx.len(),
        forall|j: int|
            0 <= j < idx.len() ==> 0 <= #[trigger] idx[j] < e.len() && kept[j] == e[idx[j]]
                && e[idx[j]].1@ != action,
        forall|a: int, b: int| 0 <= a < b < idx.len() ==> #[trigger] idx[a] < #[trigger] idx[b],
        forall|m: int|
            0 <= m < e.len() && (#[trigger] e[m]).1@ != action ==> exists|j: int|
                0 <= j < idx.len() && idx[j] == m,
    ensures
        keys_sorted(kept),
        params_map(kept).map_values(|a: KeyAction| a@) == without_action(
            params_map(e).map_values(|a: KeyAction| a@),
            action,
        ),
{
    assert forall|a: int, b: int| 0 <= a < b < kept.len() implies seq_lt(
        #[trigger] kept[a].0@,
        #[trigger] kept[b].0@,
    ) by {
        assert(idx[a] < idx[b]);
    }
    let lhs = params_map(kept).map_values(|a: KeyAction| a@);
    let rhs = without_action(params_map(e).map_values(|a: KeyAction| a@), action);
    assert forall|k: Seq<char>| #[trigger] lhs.contains_key(k) == rhs.contains_key(k) by {
        lemma_params_map_sorted_contains(kept, k);
        lemma_params_map_sorted_contains(e, k);
        if has_key(kept, k) {
            let j = choose|j: int| 0 <= j < kept.len() && kept[j].0@ == k;
            assert(e[idx[j]].0@ == k);
            assert(params_map(e)[e[idx[j]].0@] == e[idx[j]].1);
        }
        if rhs.contains_key(k) {
            let m = choose|m: int| 0 <= m < e.len() && e[m].0@ == k;
            assert(params_map(e)[e[m].0@] == e[m].1);
            let j = choose|j: int| 0 <= j < idx.len() && idx[j] == m;
            assert(kept[j].0@ == k);
        }
    }
    assert forall|k: Seq<char>| lhs.contains_key(k) implies #[trigger] lhs[k] == rhs[k] by {
        lemma_params_map_sorted_contains(kept, k);
        lemma_params_map_sorted_contains(e, k);
        let j = choose|j: int| 0 <= j < kept.len() && kept[j].0@ == k;
        assert(params_map(kept)[kept[j].0@] == kept[j].1);
        assert(params_map(e)[e[idx[j]].0@] == e[idx[j]].1);
    }
    assert(lhs =~= rhs);
}


/// What pressing a key led to.
#[derive(Debug)]
pub enum KeyPress {
    /// The pending learn target is now bound to the key.
    Bound,
    /// The key belongs to the transport; the learn target is still pending.
    Refused,
    /// Fire this action: gate its trigger on, or go to its cue.
    Fire(KeyAction),
    /// Nothing to do: the key repeats, is held already, or is bound to nothing.
    Ignored,
}

/// What a [`KeyPress`] says, as plain values.
pub enum PressModel {
    Bound,
    Refused,
    Fire(ActionModel),
    Ignored,
}

impl View for KeyPress {
    type V = PressModel;

    open spec fn view(&self) -> PressModel {
        match self {
            KeyPress::Bound => PressModel::Bound,
            KeyPress::Refused => PressModel::Refused,
            KeyPress::Fire(a) => PressModel::Fire(a@),
            KeyPress::Ignored => PressModel::Ignored,
        }
    }
}

/// The state of a [`Keyboard`], as plain values.
pub struct KeyboardModel {
    pub bindings: Map<Seq<char>, ActionModel>,
    pub learning: Option<ActionModel>,
    pub held: Set<Seq<char>>,
}

/// A key going down: with a learn target pending, binds the key to it (a
/// reserved key is refused and the target stays pending); otherwise fires
/// the key's action, unless the key repeats or is held already.
pub open spec fn key_down_spec(s: KeyboardModel, key: Seq<char>, repeat: bool) -> (
    KeyboardModel,
    PressModel,
) {
    match s.learning {
        Some(target) => if is_reserved(key) {
            (s, PressModel::Refused)
        } else {
            (
                KeyboardModel { bindings: bound(s.bindings, key, target), learning: None, ..s },
                PressModel::Bound,
            )
        },
        None => if repeat || s.held.contains(key) || !s.bindings.contains_key(key) {
            (s, PressModel::Ignored)
        } else {
            (KeyboardModel { held: s.held.insert(key), ..s }, PressModel::Fire(s.bindings[key]))
        },
    }
}

/// A key coming up: a held key is released, and if it fires a trigger that
/// trigger is gated off.
pub open spec fn key_up_spec(s: KeyboardModel, key: Seq<char>) -> (KeyboardModel, Option<Seq<char>>) {
    if !s.held.contains(key) {
        (s, None)
    } else {
        let released = KeyboardModel { held: s.held.remove(key), ..s };
        if s.bindings.contains_key(key) && s.bindings[key] is Trigger {
            (released, Some(s.bindings[key]->Trigger_0))
        } else {
            (released, None)
        }
    }
}

/// Pressing a key bound to a trigger and letting it go gates that trigger on
/// and then off, and leaves the keyboard as it was.
pub proof fn law_press_release_gates_once(s: KeyboardModel, key: Seq<char>, trigger: Seq<char>)
    requires
        s.learning is None,
        !s.held.contains(key),
        s.bindings.contains_key(key),
        s.bindings[key] == ActionModel::Trigger(trigger),
    ensures
        key_down_spec(s, key, false).1 == PressModel::Fire(ActionModel::Trigger(trigger)),
        key_down_spec(key_down_spec(s, key, false).0, key, false).1 == PressModel::Ignored,
        key_up_spec(key_down_spec(s, key, false).0, key).1 == Some(trigger),
        key_up_spec(key_down_spec(s, key, false).0, key).0 == s,
{
    let down = key_down_spec(s, key, false).0;
    assert(down.held.remove(key) =~= s.held);
}

/// Learned keys and the keyboard state around them: the pending learn target
/// and the keys held down.
pub struct Keyboard {
    keys: KeyMap,
    learning: Option<KeyAction>,
    held: Vec<String>,
}

/// Is `key` one of `held`?
pub open spec fn holds(held: Seq<String>, key: Seq<char>) -> bool {
    exists|i: int| 0 <= i < held.len() && held[i]@ == key
}

impl Keyboard {
    /// No key is held twice.
    pub closed spec fn wf(self) -> bool {
        forall|i: int, j: int| 0 <= i < j < self.held@.len() ==> self.held@[i]@ != self.held@[j]@
    }

    /// The state as plain values.
    pub closed spec fn model(self) -> KeyboardModel {
        KeyboardModel {
            bindings: self.keys.bindings(),
            learning: match self.learning {
                Some(a) => Some(a@),
                None => None,
            },
            held: Set::new(|k: Seq<char>| holds(self.held@, k)),
        }
    }

    /// No bindings, nothing pending, nothing held.
    pub fn new() -> (r: Keyboard)
        ensures
            r.wf(),
            r.model() == (KeyboardModel {
                bindings: Map::empty(),
                learning: None,
                held: Set::empty(),
            }),
    {
        let r = Keyboard { keys: KeyMap::new(), learning: None, held: Vec::new() };
        assert(r.model().held =~= Set::<Seq<char>>::empty());
        r
    }

    /// The learned bindings.
    pub fn keys(&self) -> (r: &KeyMap)
        ensures
            r.bindings() == self.model().bindings,
    {
        &self.keys
    }

    /// The action waiting for a key, if learning.
    pub fn learning(&self) -> (r: Option<&KeyAction>)
        ensures
            match r {
                Some(a) => self.model().learning == Some(a@),
                None => self.model().learning is None,
            },
    {
        match &self.learning {
            Some(a) => Some(a),
            None => None,
        }
    }

    /// Waits for the next key to bind it to `action`; `None` stops waiting.
    pub fn learn(&mut self, action: Option<KeyAction>)
        requires
            old(self).wf(),
        ensures
            final(self).wf(),
            final(self).model() == (KeyboardModel {
                learning: match action {
                    Some(a) => Some(a@),
                    None => None,
                },
                ..old(self).model()
            }),
    {
        self.learning = action;
    }

    /// Takes `action` away from every key bound to it.
    pub fn unbind(&mut self, action: &KeyAction)
        requires
            old(self).wf(),
        ensures
            final(self).wf(),
            final(self).model() == (KeyboardModel {
                bindings: without_action(old(self).model().bindings, action@),
                ..old(self).model()
            }),
    {
        self.keys.unbind(action);
    }

    /// Index of `key` among the held keys.
    fn held_index(&self, key: &str) -> (r: Option<usize>)
        ensures
            match r {
                Some(i) => i < self.held@.len() && self.held@[i as int]@ == key@,
                None => !holds(self.held@, key@),
            },
    {
        let k = chars_of(key);
        let mut i: usize = 0;
        while i < self.held.len()
            invariant
                i <= self.held.len(),
                k@ == key@,
                forall|j: int| 0 <= j < i ==> self.held@[j]@ != key@,
            decreases self.held.len() - i,
        {
            let h = chars_of_string(&self.held[i]);
            if crate::text::chars_eq(&h, &k) {
                return Some(i);
            }
            i = i + 1;
        }
        None
    }

    /// A key goes down; `repeat` marks a key-repeat event.
    pub fn key_down(&mut self, key: &str, repeat: bool) -> (r: KeyPress)
        requires
            old(self).wf(),
        ensures
            final(self).wf(),
            (final(self).model(), r@) == key_down_spec(old(self).model(), key@, repeat),
    {
        let ghost before = self.model();
        match self.learning.take() {
            Some(target) => {
                if reserved_key(key) {
                    self.learning = Some(target);
                    KeyPress::Refused
                } else {
                    self.keys.bind(key, target);
                    KeyPress::Bound
                }
            },
            None => {
                if repeat || self.held_index(key).is_some() {
                    return KeyPress::Ignored;
                }
                match self.keys.action_for(key) {
                    None => {
                        KeyPress::Ignored
                    },
                    Some(a) => {
                        let fired = a.copy();
                        self.held.push(key.to_string());
                        proof {
                            assert(self.model().held =~= before.held.insert(key@)) by {
                                assert forall|k: Seq<char>| #[trigger]
                                    self.model().held.contains(k) == before.held.insert(key@).contains(k) by {
                                    if holds(old(self).held@, k) {
                                        let i = choose|i: int|
                                            0 <= i < old(self).held@.len() && old(self).held@[i]@ == k;
                                        assert(self.held@[i] == old(self).held@[i]);
                                    }
                                    if k == key@ {
                                        assert(self.held@[self.held@.len() - 1]@ == k);
                                    }
                                    if holds(self.held@, k) && k != key@ {
                                        let i = choose|i: int| 0 <= i < self.held@.len() && self.held@[i]@ == k;
                                        assert(old(self).held@[i] == self.held@[i]);
                                    }
                                }
                            }
                        }
                        KeyPress::Fire(fired)
                    },
                }
            },
        }
    }

    /// A key comes up; gives the trigger to gate off, if the key was held
    /// and fires one.
    pub fn key_up(&mut self, key: &str) -> (r: Option<String>)
        requires
            old(self).wf(),
        ensures
            final(self).wf(),
            final(self).model() == key_up_spec(old(self).model(), key@).0,
            match r {
                Some(t) => key_up_spec(old(self).model(), key@).1 == Some(t@),
                None => key_up_spec(old(self).model(), key@).1 is None,
            },
    {
        let ghost before = self.model();
        let i = match self.held_index(key) {
            Some(i) => i,
            None => {
                assert(!before.held.contains(key@));
                return None;
            },
        };
        let ghost h0 = self.held@;
        self.held.remove(i);
        proof {
            assert(self.model().held =~= before.held.remove(key@)) by {
                assert forall|k: Seq<char>| #[trigger]
                    self.model().held.contains(k) == before.held.remove(key@).contains(k) by {
                    if holds(h0, k) && k != key@ {
                        let j = choose|j: int| 0 <= j < h0.len() && h0[j]@ == k;
                        if j < i {
                            assert(self.held@[j] == h0[j]);
                        } else {
                            assert(self.held@[j - 1] == h0[j]);
                        }
                    }
                    if holds(self.held@, k) {
                        let j = choose|j: int| 0 <= j < self.held@.len() && self.held@[j]@ == k;
                        if j < i {
                            assert(self.held@[j] == h0[j]);
                        } else {
                            assert(self.held@[j] == h0[j + 1]);
                        }
                    }
                }
            }
        }
        match self.keys.action_for(key) {
            Some(KeyAction::Trigger { trigger }) => Some(trigger.clone()),
            _ => None,
        }
    }
}

} // verus!
