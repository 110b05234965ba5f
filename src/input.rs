//! Key bindings, press state and the queue of key events that the map reads.
use vstd::prelude::*;
use std::collections::VecDeque;

verus! {

/// The character sequences of some strings.
pub open spec fn names(v: Seq<String>) -> Seq<Seq<char>> {
    v.map_values(|s: String| s@)
}

/// A queued event as key names and whether the keys went down.
pub open spec fn event_view(e: (Vec<String>, bool)) -> (Seq<Seq<char>>, bool) {
    (names(e.0@), e.1)
}

/// The names of `ks` that `keep` holds, in order.
pub open spec fn select(ks: Seq<Seq<char>>, keep: spec_fn(Seq<char>) -> bool) -> Seq<Seq<char>>
    decreases ks.len(),
{
    if ks.len() == 0 {
        Seq::empty()
    } else {
        let rest = select(ks.drop_last(), keep);
        if keep(ks.last()) {
            rest.push(ks.last())
        } else {
            rest
        }
    }
}

/// Two tests that agree on every name select the same names.
pub proof fn lemma_select_ext(ks: Seq<Seq<char>>, p: spec_fn(Seq<char>) -> bool, q: spec_fn(Seq<char>) -> bool)
    requires
        forall|k: Seq<char>| ks.contains(k) ==> p(k) == q(k),
    ensures
        select(ks, p) == select(ks, q),
    decreases ks.len(),
{
    if ks.len() > 0 {
        assert forall|k: Seq<char>| ks.drop_last().contains(k) implies p(k) == q(k) by {
            let i = choose|i: int| 0 <= i < ks.drop_last().len() && ks.drop_last()[i] == k;
            assert(ks[i] == k);
            assert(ks.contains(k));
        }
        lemma_select_ext(ks.drop_last(), p, q);
        assert(ks.contains(ks.last())) by {
            assert(ks[ks.len() - 1] == ks.last());
        }
    }
}

/// Whether `v` holds a string equal to `s`.
fn holds_string(v: &Vec<String>, s: &String) -> (r: bool)
    ensures
        r == names(v@).contains(s@),
{
    let mut i: usize = 0;
    while i < v.len()
        invariant
            i <= v@.len(),
            forall|j: int| 0 <= j < i ==> names(v@)[j] != s@,
        decreases v@.len() - i,
    {
        if v[i] == *s {
            assert(names(v@)[i as int] == s@);
            return true;
        }
        i += 1;
    }
    false
}

/// Events about a fixed set of key names, oldest first.
pub struct KeyEventQueue {
    events: VecDeque<(Vec<String>, bool)>,
    possible_keys: Vec<String>,
}

impl KeyEventQueue {
    pub closed spec fn queued(self) -> Seq<(Seq<Seq<char>>, bool)> {
        self.events@.map_values(|e: (Vec<String>, bool)| event_view(e))
    }

    /// The key names that events are recorded for.
    pub closed spec fn possible(self) -> Seq<Seq<char>> {
        names(self.possible_keys@)
    }

    pub closed spec fn wf(self) -> bool {
        self.possible().no_duplicates()
    }

    /// An empty queue for the given key names (repeats count once).
    pub fn new(possible_keys: Vec<&str>) -> (r: KeyEventQueue)
        ensures
            r.wf(),
            r.queued() == Seq::<(Seq<Seq<char>>, bool)>::empty(),
            forall|k: Seq<char>| r.possible().contains(k) == possible_keys@.map_values(|s: &str| s@).contains(k),
    {
        let ghost given = possible_keys@.map_values(|s: &str| s@);
        let mut keys: Vec<String> = Vec::new();
        let mut i: usize = 0;
        while i < possible_keys.len()
            invariant
                i <= possible_keys@.len(),
                given == possible_keys@.map_values(|s: &str| s@),
                names(keys@).no_duplicates(),
                forall|k: Seq<char>| names(keys@).contains(k) == given.subrange(0, i as int).contains(k),
            decreases possible_keys@.len() - i,
        {
            let s = possible_keys[i].to_owned();
            let ghost before = keys@;
            let ghost pre = given.subrange(0, i as int);
            let ghost post = given.subrange(0, i + 1);
            proof {
                assert(post == pre.push(given[i as int]));
                assert(given[i as int] == s@);
            }
            if !holds_string(&keys, &s) {
                keys.push(s);
                proof {
                    assert(names(keys@) == names(before).push(s@));
                }
            }
            proof {
                lemma_push_contains(pre, given[i as int]);
                if names(keys@).len() > names(before).len() {
                    lemma_push_contains(names(before), s@);
                    assert forall|a: int, b: int| 0 <= a < names(keys@).len() && 0 <= b < names(keys@).len() && a != b
                        implies names(keys@)[a] != names(keys@)[b] by {
                        if a < before.len() && b < before.len() {
                            assert(names(before)[a] == names(keys@)[a]);
                            assert(names(before)[b] == names(keys@)[b]);
                        } else if a < before.len() {
                            assert(names(before)[a] == names(keys@)[a]);
                            assert(names(before).contains(names(keys@)[a]));
                        } else if b < before.len() {
                            assert(names(before)[b] == names(keys@)[b]);
                            assert(names(before).contains(names(keys@)[b]));
                        }
                    }
                }
            }
            i += 1;
        }
        proof {
            assert(given.subrange(0, possible_keys@.len() as int) == given);
        }
        let r = KeyEventQueue { events: VecDeque::new(), possible_keys: keys };
        proof {
            assert(r.queued() =~= Seq::<(Seq<Seq<char>>, bool)>::empty());
        }
        r
    }

    /// Queues an event for the possible keys among `key_events`, unless there
    /// are none.
    fn queue_key_events(&mut self, key_events: &Vec<String>, pressed: bool)
        requires
            old(self).wf(),
        ensures
            final(self).wf(),
            final(self).possible() == old(self).possible(),
            select(old(self).possible(), |k: Seq<char>| names(key_events@).contains(k)).len() == 0 ==> final(self).queued()
                == old(self).queued(),
            select(old(self).possible(), |k: Seq<char>| names(key_events@).contains(k)).len() > 0 ==> final(self).queued()
                == old(self).queued().push(
                (select(old(self).possible(), |k: Seq<char>| names(key_events@).contains(k)), pressed),
            ),
    {
        let ghost keep = |k: Seq<char>| names(key_events@).contains(k);
        let ghost ks = self.possible();
        let mut event_keys: Vec<String> = Vec::new();
        let mut i: usize = 0;
        while i < self.possible_keys.len()
            invariant
                i <= self.possible_keys@.len(),
                ks == names(self.possible_keys@),
                keep == (|k: Seq<char>| names(key_events@).contains(k)),
                names(event_keys@) == select(ks.subrange(0, i as int), keep),
            decreases self.possible_keys@.len() - i,
        {
            let ghost before = event_keys@;
            proof {
                assert(ks.subrange(0, i + 1).drop_last() == ks.subrange(0, i as int));
                assert(ks.subrange(0, i + 1).last() == self.possible_keys@[i as int]@);
            }
            if holds_string(key_events, &self.possible_keys[i]) {
                event_keys.push(self.possible_keys[i].clone());
                proof {
                    assert(names(event_keys@) =~= names(before).push(self.possible_keys@[i as int]@));
                }
            }
            i += 1;
        }
        proof {
            assert(ks.subrange(0, self.possible_keys@.len() as int) == ks);
        }
        if event_keys.len() == 0 {
            return;
        }
        let ghost ev = (event_keys, pressed);
        self.events.push_back((event_keys, pressed));
        proof {
            assert(self.queued() =~= old(self).queued().push(event_view(ev)));
        }
    }

    /// Removes and returns the oldest event.
    pub fn pop_event(&mut self) -> (r: Option<(Vec<String>, bool)>)
        requires
            old(self).wf(),
        ensures
            final(self).wf(),
            final(self).possible() == old(self).possible(),
            r is None == (old(self).queued().len() == 0),
            r is None ==> final(self).queued() == old(self).queued(),
            r is Some ==> event_view(r.unwrap()) == old(self).queued()[0] && final(self).queued() == old(self).queued().subrange(
                1,
                old(self).queued().len() as int,
            ),
    {
        let r = self.events.pop_front();
        proof {
            if r is Some {
                assert(self.queued() =~= old(self).queued().subrange(1, old(self).queued().len() as int));
            }
        }
        r
    }

    /// Removes and returns up to `num` of the oldest events, oldest first.
    pub fn pop_events(&mut self, num: usize) -> (r: Vec<(Vec<String>, bool)>)
        requires
            old(self).wf(),
        ensures
            final(self).wf(),
            final(self).possible() == old(self).possible(),
            r@.len() == (if num < old(self).queued().len() { num as int } else { old(self).queued().len() as int }),
            r@.map_values(|e: (Vec<String>, bool)| event_view(e)) == old(self).queued().subrange(0, r@.len() as int),
            final(self).queued() == old(self).queued().subrange(r@.len() as int, old(self).queued().len() as int),
    {
        let ghost q0 = self.queued();
        let mut events: Vec<(Vec<String>, bool)> = Vec::new();
        let mut k: usize = 0;
        while k < num
            invariant
                self.wf(),
                self.possible() == old(self).possible(),
                q0 == old(self).queued(),
                k <= num,
                events@.len() == k,
                k <= q0.len(),
                events@.map_values(|e: (Vec<String>, bool)| event_view(e)) == q0.subrange(0, k as int),
                self.queued() == q0.subrange(k as int, q0.len() as int),
            decreases num - k,
        {
            if let Some(event) = self.pop_event() {
                let ghost before = events@;
                events.push(event);
                proof {
                    assert(events@.map_values(|e: (Vec<String>, bool)| event_view(e)) =~= q0.subrange(0, k + 1));
                    assert(self.queued() =~= q0.subrange(k + 1, q0.len() as int));
                }
            } else {
                return events;
            }
            k += 1;
        }
        events
    }
}

/// A physical key or mouse button.
#[derive(Clone, Copy, PartialEq, Eq, Structural, Debug, Hash)]
pub enum PressKey {
    KeyScancode(usize),
    MouseButton(usize),
}

/// Whether any of `keys` is down in `press`.
pub open spec fn key_down(press: Map<PressKey, bool>, keys: Set<PressKey>) -> bool {
    exists|q: PressKey| keys.contains(q) && press.contains_key(q) && #[trigger] press[q]
}

/// The names whose state changes when `pk` goes from the state of `press_before` to that
/// of `press_after`: names bound to `pk` whose "any key down" value differs.
pub open spec fn changed_name(
    b: Map<Seq<char>, Set<PressKey>>,
    press_before: Map<PressKey, bool>,
    press_after: Map<PressKey, bool>,
    pk: PressKey,
    k: Seq<char>,
) -> bool {
    b.contains_key(k) && b[k].contains(pk) && key_down(press_before, b[k]) != key_down(press_after, b[k])
}

/// The press state of every known key and the keys bound to every name.
pub struct InputData {
    map_press: Vec<(PressKey, bool)>,
    map_key: Vec<(String, Vec<PressKey>)>,
}

impl InputData {
    pub closed spec fn press_keys(self) -> Seq<PressKey> {
        self.map_press@.map_values(|e: (PressKey, bool)| e.0)
    }

    pub closed spec fn key_names(self) -> Seq<Seq<char>> {
        self.map_key@.map_values(|e: (String, Vec<PressKey>)| e.0@)
    }

    /// Whether `pk` is down.
    pub closed spec fn is_down(self, pk: PressKey) -> bool {
        exists|i: int| 0 <= i < self.map_press@.len() && #[trigger] self.map_press@[i] == (pk, true)
    }

    /// Whether `name` is bound to `pk`.
    pub closed spec fn binds(self, name: Seq<char>, pk: PressKey) -> bool {
        exists|i: int| 0 <= i < self.map_key@.len() && #[trigger] self.map_key@[i].0@ == name && self.map_key@[i].1@.contains(pk)
    }

    /// The press state of every known key.
    pub open spec fn press(self) -> Map<PressKey, bool> {
        Map::new(|pk: PressKey| self.press_keys().contains(pk), |pk: PressKey| self.is_down(pk))
    }

    /// The keys bound to every name.
    pub open spec fn bindings(self) -> Map<Seq<char>, Set<PressKey>> {
        Map::new(|n: Seq<char>| self.key_names().contains(n), |n: Seq<char>| Set::new(|pk: PressKey| self.binds(n, pk)))
    }

    pub closed spec fn wf(self) -> bool {
        &&& self.press_keys().no_duplicates()
        &&& self.key_names().no_duplicates()
        &&& forall|n: Seq<char>, pk: PressKey| #[trigger] self.binds(n, pk) ==> self.press_keys().contains(pk)
    }

    /// The index of `pk` in the press list.
    fn find_press(&self, pk: &PressKey) -> (r: Option<usize>)
        requires
            self.wf(),
        ensures
            r is None == !self.press_keys().contains(*pk),
            r is Some ==> r.unwrap() < self.map_press@.len() && self.map_press@[r.unwrap() as int].0 == *pk,
    {
        let mut i: usize = 0;
        while i < self.map_press.len()
            invariant
                i <= self.map_press@.len(),
                forall|j: int| 0 <= j < i ==> self.press_keys()[j] != *pk,
            decreases self.map_press@.len() - i,
        {
            if self.map_press[i].0 == *pk {
                proof {
                    assert(self.press_keys()[i as int] == *pk);
                }
                return Some(i);
            }
            i += 1;
        }
        proof {
            if self.press_keys().contains(*pk) {
                let j = choose|j: int| 0 <= j < self.press_keys().len() && self.press_keys()[j] == *pk;
            }
        }
        None
    }

    /// The index of the name `key` in the binding list.
    fn find_name(&self, key: &String) -> (r: Option<usize>)
        requires
            self.wf(),
        ensures
            r is None == !self.key_names().contains(key@),
            r is Some ==> r.unwrap() < self.map_key@.len() && self.map_key@[r.unwrap() as int].0@ == key@,
    {
        let mut i: usize = 0;
        while i < self.map_key.len()
            invariant
                i <= self.map_key@.len(),
                forall|j: int| 0 <= j < i ==> self.key_names()[j] != key@,
            decreases self.map_key@.len() - i,
        {
            if self.map_key[i].0 == *key {
                proof {
                    assert(self.key_names()[i as int] == key@);
                }
                return Some(i);
            }
            i += 1;
        }
        proof {
            if self.key_names().contains(key@) {
                let j = choose|j: int| 0 <= j < self.key_names().len() && self.key_names()[j] == key@;
            }
        }
        None
    }

    proof fn lemma_down_at(self, i: int)
        requires
            self.wf(),
            0 <= i < self.map_press@.len(),
        ensures
            self.is_down(self.map_press@[i].0) == self.map_press@[i].1,
    {
        if self.is_down(self.map_press@[i].0) {
            let j = choose|j: int| 0 <= j < self.map_press@.len() && #[trigger] self.map_press@[j] == (self.map_press@[i].0, true);
            assert(self.press_keys()[j] == self.press_keys()[i]);
        }
    }

    /// Sets the state of `pk`, adding it if it is new.
    fn set_press(&mut self, pk: PressKey, state: bool)
        requires
            old(self).wf(),
        ensures
            final(self).wf(),
            final(self).press() == old(self).press().insert(pk, state),
            final(self).map_key == old(self).map_key,
    {
        let ghost press_before = self.press();
        match self.find_press(&pk) {
            Some(i) => {
                let ghost before = *self;
                self.map_press.set(i, (pk, state));
                proof {
                    assert(self.press_keys() =~= before.press_keys());
                    assert forall|q: PressKey| #[trigger] self.is_down(q) == (if q == pk { state } else { before.is_down(q) }) by {
                        if self.is_down(q) {
                            let j = choose|j: int| 0 <= j < self.map_press@.len() && #[trigger] self.map_press@[j] == (q, true);
                            if j != i {
                                assert(before.map_press@[j] == (q, true));
                                if q == pk {
                                    assert(before.press_keys()[j] == before.press_keys()[i as int]);
                                }
                            }
                        }
                        if q != pk && before.is_down(q) {
                            let j = choose|j: int| 0 <= j < before.map_press@.len() && #[trigger] before.map_press@[j] == (q, true);
                            assert(j != i);
                            assert(self.map_press@[j] == (q, true));
                        }
                        if q == pk && state {
                            assert(self.map_press@[i as int] == (q, true));
                        }
                    }
                    assert forall|n: Seq<char>, q: PressKey| #[trigger] self.binds(n, q) implies self.press_keys().contains(q) by {
                        assert(before.binds(n, q));
                    }
                    assert(self.press() =~= press_before.insert(pk, state));
                }
            },
            None => {
                let ghost before = *self;
                self.map_press.push((pk, state));
                proof {
                    assert(self.press_keys() =~= before.press_keys().push(pk));
                    lemma_push_contains(before.press_keys(), pk);
                    assert forall|a: int, b: int| 0 <= a < self.press_keys().len() && 0 <= b < self.press_keys().len() && a != b
                        implies self.press_keys()[a] != self.press_keys()[b] by {
                        if a < before.press_keys().len() && b < before.press_keys().len() {
                        } else if a < before.press_keys().len() {
                            assert(before.press_keys().contains(before.press_keys()[a]));
                        } else if b < before.press_keys().len() {
                            assert(before.press_keys().contains(before.press_keys()[b]));
                        }
                    }
                    assert forall|q: PressKey| #[trigger] self.is_down(q) == (if q == pk { state } else { before.is_down(q) }) by {
                        if self.is_down(q) {
                            let j = choose|j: int| 0 <= j < self.map_press@.len() && #[trigger] self.map_press@[j] == (q, true);
                            if j < before.map_press@.len() {
                                assert(before.map_press@[j] == (q, true));
                                if q == pk {
                                    assert(before.press_keys()[j] == pk);
                                }
                            }
                        }
                        if q != pk && before.is_down(q) {
                            let j = choose|j: int| 0 <= j < before.map_press@.len() && #[trigger] before.map_press@[j] == (q, true);
                            assert(self.map_press@[j] == (q, true));
                        }
                        if q == pk && state {
                            assert(self.map_press@[before.map_press@.len() as int] == (q, true));
                        }
                    }
                    assert forall|n: Seq<char>, q: PressKey| #[trigger] self.binds(n, q) implies self.press_keys().contains(q) by {
                        assert(before.binds(n, q));
                    }
                    assert(self.press() =~= press_before.insert(pk, state));
                }
            },
        }
    }

    /// Binds `new_presskeys` to the name `key` as well, and marks each of them
    /// as up.
    fn add(&mut self, key: &str, new_presskeys: Vec<PressKey>)
        requires
            old(self).wf(),
        ensures
            final(self).wf(),
            final(self).press() == Map::new(
                |pk: PressKey| old(self).press().contains_key(pk) || new_presskeys@.contains(pk),
                |pk: PressKey| if new_presskeys@.contains(pk) { false } else { old(self).press()[pk] },
            ),
            final(self).bindings() == old(self).bindings().insert(
                key@,
                (if old(self).bindings().contains_key(key@) { old(self).bindings()[key@] } else { Set::empty() }).union(
                    new_presskeys@.to_set(),
                ),
            ),
    {
        let ghost press_before = self.press();
        let ghost b0 = self.bindings();
        let mut i: usize = 0;
        while i < new_presskeys.len()
            invariant
                self.wf(),
                i <= new_presskeys@.len(),
                self.map_key == old(self).map_key,
                press_before == old(self).press(),
                self.press() == Map::new(
                    |pk: PressKey| press_before.contains_key(pk) || new_presskeys@.subrange(0, i as int).contains(pk),
                    |pk: PressKey| if new_presskeys@.subrange(0, i as int).contains(pk) { false } else { press_before[pk] },
                ),
            decreases new_presskeys@.len() - i,
        {
            let ghost before = self.press();
            self.set_press(new_presskeys[i], false);
            proof {
                let pre = new_presskeys@.subrange(0, i as int);
                let post = new_presskeys@.subrange(0, i + 1);
                assert(post == pre.push(new_presskeys@[i as int]));
                lemma_push_contains(pre, new_presskeys@[i as int]);
                assert(self.press() =~= Map::new(
                    |pk: PressKey| press_before.contains_key(pk) || post.contains(pk),
                    |pk: PressKey| if post.contains(pk) { false } else { press_before[pk] },
                ));
            }
            i += 1;
        }
        proof {
            assert(new_presskeys@.subrange(0, new_presskeys@.len() as int) == new_presskeys@);
        }
        let ghost mid = *self;
        let name = key.to_owned();
        match self.find_name(&name) {
            Some(idx) => {
                let mut keys: Vec<PressKey> = Vec::new();
                let mut j: usize = 0;
                while j < self.map_key[idx].1.len()
                    invariant
                        idx < self.map_key@.len(),
                        j <= self.map_key@[idx as int].1@.len(),
                        keys@ == self.map_key@[idx as int].1@.subrange(0, j as int),
                    decreases self.map_key@[idx as int].1@.len() - j,
                {
                    keys.push(self.map_key[idx].1[j]);
                    proof {
                        assert(self.map_key@[idx as int].1@.subrange(0, j + 1) == self.map_key@[idx as int].1@.subrange(0, j as int).push(
                            self.map_key@[idx as int].1@[j as int],
                        ));
                    }
                    j += 1;
                }
                proof {
                    assert(self.map_key@[idx as int].1@.subrange(0, self.map_key@[idx as int].1@.len() as int) == self.map_key@[idx as int].1@);
                }
                let ghost old_keys = keys@;
                let mut m: usize = 0;
                while m < new_presskeys.len()
                    invariant
                        m <= new_presskeys@.len(),
                        keys@ == old_keys + new_presskeys@.subrange(0, m as int),
                    decreases new_presskeys@.len() - m,
                {
                    keys.push(new_presskeys[m]);
                    proof {
                        assert(new_presskeys@.subrange(0, m + 1) == new_presskeys@.subrange(0, m as int).push(new_presskeys@[m as int]));
                        assert(keys@ =~= old_keys + new_presskeys@.subrange(0, m + 1));
                    }
                    m += 1;
                }
                proof {
                    assert(new_presskeys@.subrange(0, new_presskeys@.len() as int) == new_presskeys@);
                }
                self.map_key.set(idx, (name, keys));
                proof {
                    assert(self.key_names() =~= mid.key_names());
                    assert forall|n: Seq<char>, q: PressKey| #[trigger] self.binds(n, q) == (if n == key@ {
                        mid.binds(n, q) || new_presskeys@.contains(q)
                    } else {
                        mid.binds(n, q)
                    }) by {
                        if self.binds(n, q) {
                            let t = choose|t: int| 0 <= t < self.map_key@.len() && #[trigger] self.map_key@[t].0@ == n && self.map_key@[t].1@.contains(q);
                            if t != idx {
                                assert(mid.map_key@[t] == self.map_key@[t]);
                            } else {
                                let u = choose|u: int| 0 <= u < keys@.len() && keys@[u] == q;
                                if u < old_keys.len() {
                                    assert(mid.map_key@[idx as int].1@[u] == q);
                                } else {
                                    assert(new_presskeys@[u - old_keys.len()] == q);
                                }
                            }
                        }
                        if n == key@ && new_presskeys@.contains(q) {
                            let u = choose|u: int| 0 <= u < new_presskeys@.len() && new_presskeys@[u] == q;
                            assert(keys@[old_keys.len() + u] == q);
                            assert(self.map_key@[idx as int].0@ == n);
                        }
                        if mid.binds(n, q) {
                            let t = choose|t: int| 0 <= t < mid.map_key@.len() && #[trigger] mid.map_key@[t].0@ == n && mid.map_key@[t].1@.contains(q);
                            if t != idx {
                                assert(mid.map_key@[t] == self.map_key@[t]);
                            } else {
                                let u = choose|u: int| 0 <= u < old_keys.len() && old_keys[u] == q;
                                assert(keys@[u] == q);
                            }
                        }
                        if n == key@ && mid.binds(n, q) {
                            let t = choose|t: int| 0 <= t < mid.map_key@.len() && #[trigger] mid.map_key@[t].0@ == n && mid.map_key@[t].1@.contains(q);
                            assert(mid.key_names()[t] == mid.key_names()[idx as int]);
                        }
                    }
                }
            },
            None => {
                self.map_key.push((name, new_presskeys));
                proof {
                    assert(self.key_names() =~= mid.key_names().push(key@));
                    lemma_push_contains(mid.key_names(), key@);
                    assert forall|a: int, b: int| 0 <= a < self.key_names().len() && 0 <= b < self.key_names().len() && a != b
                        implies self.key_names()[a] != self.key_names()[b] by {
                        if a < mid.key_names().len() && b < mid.key_names().len() {
                        } else if a < mid.key_names().len() {
                            assert(mid.key_names().contains(mid.key_names()[a]));
                        } else if b < mid.key_names().len() {
                            assert(mid.key_names().contains(mid.key_names()[b]));
                        }
                    }
                    assert forall|n: Seq<char>, q: PressKey| #[trigger] self.binds(n, q) == (if n == key@ {
                        mid.binds(n, q) || new_presskeys@.contains(q)
                    } else {
                        mid.binds(n, q)
                    }) by {
                        if self.binds(n, q) {
                            let t = choose|t: int| 0 <= t < self.map_key@.len() && #[trigger] self.map_key@[t].0@ == n && self.map_key@[t].1@.contains(q);
                            if t < mid.map_key@.len() {
                                assert(mid.map_key@[t] == self.map_key@[t]);
                            }
                        }
                        if n == key@ && new_presskeys@.contains(q) {
                            assert(self.map_key@[mid.map_key@.len() as int].0@ == n);
                        }
                        if mid.binds(n, q) {
                            let t = choose|t: int| 0 <= t < mid.map_key@.len() && #[trigger] mid.map_key@[t].0@ == n && mid.map_key@[t].1@.contains(q);
                            assert(self.map_key@[t] == mid.map_key@[t]);
                        }
                        if n == key@ && mid.binds(n, q) {
                            let t = choose|t: int| 0 <= t < mid.map_key@.len() && #[trigger] mid.map_key@[t].0@ == n && mid.map_key@[t].1@.contains(q);
                            assert(mid.key_names()[t] == key@);
                            assert(mid.key_names().contains(key@));
                        }
                    }
                }
            },
        }
        proof {
            assert(self.press_keys() == mid.press_keys());
            assert forall|n: Seq<char>, q: PressKey| #[trigger] self.binds(n, q) implies self.press_keys().contains(q) by {
                if !mid.binds(n, q) {
                    assert(mid.press().contains_key(q));
                }
            }
            assert forall|n: Seq<char>| #[trigger] self.bindings().contains_key(n) == b0.insert(
                key@,
                (if b0.contains_key(key@) { b0[key@] } else { Set::empty() }).union(new_presskeys@.to_set()),
            ).contains_key(n) by {
                if n == key@ {
                    assert(self.key_names().contains(key@)) by {
                        if mid.key_names().contains(key@) {
                            let t = choose|t: int| 0 <= t < mid.key_names().len() && mid.key_names()[t] == key@;
                            assert(self.key_names()[t] == key@);
                        } else {
                            assert(self.key_names()[self.key_names().len() - 1] == key@);
                        }
                    }
                } else {
                    if self.key_names().contains(n) {
                        let t = choose|t: int| 0 <= t < self.key_names().len() && self.key_names()[t] == n;
                        assert(t < mid.key_names().len());
                        assert(mid.key_names()[t] == n);
                    }
                    if mid.key_names().contains(n) {
                        let t = choose|t: int| 0 <= t < mid.key_names().len() && mid.key_names()[t] == n;
                        assert(self.key_names()[t] == n);
                    }
                }
            }
            assert forall|n: Seq<char>| #[trigger] self.bindings().contains_key(n) implies self.bindings()[n] =~= b0.insert(
                key@,
                (if b0.contains_key(key@) { b0[key@] } else { Set::empty() }).union(new_presskeys@.to_set()),
            )[n] by {
                if n == key@ {
                    assert forall|q: PressKey| self.bindings()[n].contains(q) == (if b0.contains_key(key@) { b0[key@] } else { Set::empty() }).union(new_presskeys@.to_set()).contains(q) by {
                        if !b0.contains_key(key@) && mid.binds(n, q) {
                            let t = choose|t: int| 0 <= t < mid.map_key@.len() && #[trigger] mid.map_key@[t].0@ == n && mid.map_key@[t].1@.contains(q);
                            assert(mid.key_names()[t] == n);
                        }
                    }
                }
            }
            assert(self.bindings() =~= b0.insert(
                key@,
                (if b0.contains_key(key@) { b0[key@] } else { Set::empty() }).union(new_presskeys@.to_set()),
            ));
        }
    }

    /// Records that `presskey` is now `pressed`. A key that nothing knows is
    /// ignored. When the key's state changes, `event_queue` gets one event
    /// with the names whose "any key down" value changed.
    pub fn update_pressed(&mut self, presskey: &PressKey, pressed: bool, event_queue: &mut KeyEventQueue)
        requires
            old(self).wf(),
            old(event_queue).wf(),
        ensures
            final(self).wf(),
            final(event_queue).wf(),
            final(self).bindings() == old(self).bindings(),
            final(event_queue).possible() == old(event_queue).possible(),
            !old(self).press().contains_key(*presskey) ==> final(self).press() == old(self).press()
                && final(event_queue).queued() == old(event_queue).queued(),
            old(self).press().contains_key(*presskey) ==> final(self).press() == old(self).press().insert(*presskey, pressed),
            old(self).press().contains_key(*presskey) && old(self).press()[*presskey] == pressed ==> final(event_queue).queued()
                == old(event_queue).queued(),
            old(self).press().contains_key(*presskey) && old(self).press()[*presskey] != pressed ==> {
                let sel = select(
                    old(event_queue).possible(),
                    |k: Seq<char>| changed_name(old(self).bindings(), old(self).press(), final(self).press(), *presskey, k),
                );
                &&& sel.len() == 0 ==> final(event_queue).queued() == old(event_queue).queued()
                &&& sel.len() > 0 ==> final(event_queue).queued() == old(event_queue).queued().push((sel, pressed))
            },
    {
        let ghost b = self.bindings();
        let ghost press_before = self.press();
        let ghost pk = *presskey;
        let at = match self.find_press(presskey) {
            None => {
                return;
            },
            Some(i) => i,
        };
        // The names bound to the key, with their state before the change.
        let mut rel_names: Vec<String> = Vec::new();
        let mut rel_states: Vec<bool> = Vec::new();
        let mut i: usize = 0;
        while i < self.map_key.len()
            invariant
                self.wf(),
                *self == *old(self),
                b == self.bindings(),
                press_before == self.press(),
                pk == *presskey,
                i <= self.map_key@.len(),
                rel_names@.len() == rel_states@.len(),
                forall|j: int| 0 <= j < rel_names@.len() ==> b.contains_key(#[trigger] names(rel_names@)[j])
                    && b[names(rel_names@)[j]].contains(pk) && rel_states@[j] == key_down(press_before, b[names(rel_names@)[j]]),
                forall|t: int| 0 <= t < i && self.map_key@[t].1@.contains(pk) ==> names(rel_names@).contains(#[trigger] self.key_names()[t]),
            decreases self.map_key@.len() - i,
        {
            if holds_press(&self.map_key[i].1, presskey) {
                let ghost n = self.map_key@[i as int].0@;
                proof {
                    assert(self.key_names()[i as int] == n);
                    assert(self.key_names().contains(n));
                    assert(self.binds(n, pk));
                    assert(b[n] == Set::new(|q: PressKey| self.binds(n, q)));
                }
                let state = self.pressed(self.map_key[i].0.as_str());
                let ghost before = rel_names@;
                rel_names.push(self.map_key[i].0.clone());
                rel_states.push(state);
                proof {
                    assert(names(rel_names@) =~= names(before).push(n));
                    lemma_push_contains(names(before), n);
                }
            }
            i += 1;
        }
        let changed = self.map_press[at].1 != pressed;
        proof {
            self.lemma_down_at(at as int);
            assert(self.press_keys()[at as int] == pk);
        }
        self.set_press(*presskey, pressed);
        let ghost press_after = self.press();
        proof {
            assert(self.bindings() =~= b) by {
                assert(self.key_names() == old(self).key_names());
                assert forall|n: Seq<char>| #[trigger] self.bindings().contains_key(n) implies self.bindings()[n] =~= b[n] by {
                    assert forall|q: PressKey| self.binds(n, q) == old(self).binds(n, q) by {}
                }
            }
        }
        if changed {
            let mut affected: Vec<String> = Vec::new();
            let mut j: usize = 0;
            while j < rel_names.len()
                invariant
                    self.wf(),
                    self.bindings() == b,
                    self.press() == press_after,
                    j <= rel_names@.len(),
                    rel_names@.len() == rel_states@.len(),
                    forall|q: int| 0 <= q < rel_names@.len() ==> b.contains_key(#[trigger] names(rel_names@)[q])
                        && b[names(rel_names@)[q]].contains(pk) && rel_states@[q] == key_down(press_before, b[names(rel_names@)[q]]),
                    forall|k: Seq<char>| #[trigger] names(affected@).contains(k) ==> changed_name(b, press_before, press_after, pk, k),
                    forall|q: int| 0 <= q < j && changed_name(b, press_before, press_after, pk, names(rel_names@)[q]) ==> names(affected@).contains(
                        #[trigger] names(rel_names@)[q],
                    ),
                decreases rel_names@.len() - j,
            {
                let ghost n = names(rel_names@)[j as int];
                let now = self.pressed(rel_names[j].as_str());
                if rel_states[j] != now {
                    let ghost before = affected@;
                    affected.push(rel_names[j].clone());
                    proof {
                        assert(names(affected@) =~= names(before).push(n));
                        lemma_push_contains(names(before), n);
                    }
                }
                j += 1;
            }
            proof {
                assert forall|k: Seq<char>| event_queue.possible().contains(k) implies names(affected@).contains(k) == changed_name(
                    b,
                    press_before,
                    press_after,
                    pk,
                    k,
                ) by {
                    if changed_name(b, press_before, press_after, pk, k) {
                        let t = choose|t: int| 0 <= t < old(self).key_names().len() && old(self).key_names()[t] == k;
                        assert(old(self).binds(k, pk));
                        let t2 = choose|t2: int| 0 <= t2 < old(self).map_key@.len() && #[trigger] old(self).map_key@[t2].0@ == k
                            && old(self).map_key@[t2].1@.contains(pk);
                        assert(old(self).key_names()[t2] == k);
                        assert(names(rel_names@).contains(k));
                        let q = choose|q: int| 0 <= q < names(rel_names@).len() && names(rel_names@)[q] == k;
                    }
                }
                lemma_select_ext(
                    event_queue.possible(),
                    |k: Seq<char>| names(affected@).contains(k),
                    |k: Seq<char>| changed_name(b, press_before, press_after, pk, k),
                );
            }
            event_queue.queue_key_events(&affected, pressed);
        }
    }

    /// Binds the keyboard keys with the given scancodes to the name `key`.
    fn add_keys(&mut self, key: &str, scancodes: Vec<usize>)
        requires
            old(self).wf(),
        ensures
            final(self).wf(),
            final(self).press() == Map::new(
                |pk: PressKey| old(self).press().contains_key(pk) || scancodes@.map_values(|c: usize| PressKey::KeyScancode(c)).contains(pk),
                |pk: PressKey| if scancodes@.map_values(|c: usize| PressKey::KeyScancode(c)).contains(pk) { false } else { old(self).press()[pk] },
            ),
            final(self).bindings() == old(self).bindings().insert(
                key@,
                (if old(self).bindings().contains_key(key@) { old(self).bindings()[key@] } else { Set::empty() }).union(
                    scancodes@.map_values(|c: usize| PressKey::KeyScancode(c)).to_set(),
                ),
            ),
    {
        let mut keys: Vec<PressKey> = Vec::new();
        let mut i: usize = 0;
        while i < scancodes.len()
            invariant
                i <= scancodes@.len(),
                keys@ == scancodes@.subrange(0, i as int).map_values(|c: usize| PressKey::KeyScancode(c)),
            decreases scancodes@.len() - i,
        {
            keys.push(PressKey::KeyScancode(scancodes[i]));
            proof {
                assert(keys@ =~= scancodes@.subrange(0, i + 1).map_values(|c: usize| PressKey::KeyScancode(c)));
            }
            i += 1;
        }
        proof {
            assert(scancodes@.subrange(0, scancodes@.len() as int) == scancodes@);
        }
        self.add(key, keys);
    }

    /// The default bindings, every key up.
    pub fn new() -> (r: InputData)
        ensures
            r.wf(),
            r.bindings() == default_bindings(),
            forall|pk: PressKey| #[trigger] r.press().contains_key(pk) ==> !r.press()[pk],
    {
        let mut input_data = InputData { map_press: Vec::new(), map_key: Vec::new() };
        proof {
            assert(input_data.bindings() =~= Map::<Seq<char>, Set<PressKey>>::empty());
            assert(input_data.press() =~= Map::<PressKey, bool>::empty());
        }
        proof {
            reveal_strlit("forward");
            reveal_strlit("interact_1");
            reveal_strlit("interact_2");
            reveal_strlit("backward");
            reveal_strlit("left");
            reveal_strlit("right");
            reveal_strlit("high");
            reveal_strlit("low");
            assert("forward"@.len() == 7 && "interact_1"@.len() == 10 && "interact_2"@.len() == 10);
            assert("backward"@.len() == 8 && "left"@.len() == 4 && "right"@.len() == 5);
            assert("high"@.len() == 4 && "low"@.len() == 3);
            assert("interact_1"@[9] != "interact_2"@[9]);
            assert("left"@[0] != "high"@[0]);
        }
        let ghost m0 = Map::<Seq<char>, Set<PressKey>>::empty();
        let mut codes: Vec<usize> = Vec::new();
        codes.push(18);
        codes.push(72);
        proof {
            assert(codes@.map_values(|c: usize| PressKey::KeyScancode(c)) =~= seq![PressKey::KeyScancode(18), PressKey::KeyScancode(72)]);
            lemma_two_keys(PressKey::KeyScancode(18), PressKey::KeyScancode(72));
        }
        input_data.add_keys("forward", codes);
        let ghost m1 = m0.insert("forward"@, set![PressKey::KeyScancode(18), PressKey::KeyScancode(72)]);
        proof {
            assert(Set::<PressKey>::empty().union(set![PressKey::KeyScancode(18), PressKey::KeyScancode(72)]) =~= set![PressKey::KeyScancode(18), PressKey::KeyScancode(72)]);
            assert(input_data.bindings() =~= m1);
        }
        let mut pks: Vec<PressKey> = Vec::new();
        pks.push(PressKey::MouseButton(1));
        proof {
            assert(pks@ =~= seq![PressKey::MouseButton(1)]);
            lemma_one_key(PressKey::MouseButton(1));
            assert(!m1.contains_key("interact_1"@));
        }
        input_data.add("interact_1", pks);
        let ghost m2 = m1.insert("interact_1"@, set![PressKey::MouseButton(1)]);
        proof {
            assert(Set::<PressKey>::empty().union(set![PressKey::MouseButton(1)]) =~= set![PressKey::MouseButton(1)]);
            assert(input_data.bindings() =~= m2);
        }
        let mut pks: Vec<PressKey> = Vec::new();
        pks.push(PressKey::MouseButton(3));
        proof {
            assert(pks@ =~= seq![PressKey::MouseButton(3)]);
            lemma_one_key(PressKey::MouseButton(3));
            assert(!m2.contains_key("interact_2"@));
        }
        input_data.add("interact_2", pks);
        let ghost m3 = m2.insert("interact_2"@, set![PressKey::MouseButton(3)]);
        proof {
            assert(Set::<PressKey>::empty().union(set![PressKey::MouseButton(3)]) =~= set![PressKey::MouseButton(3)]);
            assert(input_data.bindings() =~= m3);
        }
        let mut codes: Vec<usize> = Vec::new();
        codes.push(32);
        codes.push(80);
        proof {
            assert(codes@.map_values(|c: usize| PressKey::KeyScancode(c)) =~= seq![PressKey::KeyScancode(32), PressKey::KeyScancode(80)]);
            lemma_two_keys(PressKey::KeyScancode(32), PressKey::KeyScancode(80));
            assert(!m3.contains_key("backward"@));
        }
        input_data.add_keys("backward", codes);
        let ghost m4 = m3.insert("backward"@, set![PressKey::KeyScancode(32), PressKey::KeyScancode(80)]);
        proof {
            assert(Set::<PressKey>::empty().union(set![PressKey::KeyScancode(32), PressKey::KeyScancode(80)]) =~= set![PressKey::KeyScancode(32), PressKey::KeyScancode(80)]);
            assert(input_data.bindings() =~= m4);
        }
        let mut codes: Vec<usize> = Vec::new();
        codes.push(31);
        codes.push(75);
        proof {
            assert(codes@.map_values(|c: usize| PressKey::KeyScancode(c)) =~= seq![PressKey::KeyScancode(31), PressKey::KeyScancode(75)]);
            lemma_two_keys(PressKey::KeyScancode(31), PressKey::KeyScancode(75));
            assert(!m4.contains_key("left"@));
        }
        input_data.add_keys("left", codes);
        let ghost m5 = m4.insert("left"@, set![PressKey::KeyScancode(31), PressKey::KeyScancode(75)]);
        proof {
            assert(Set::<PressKey>::empty().union(set![PressKey::KeyScancode(31), PressKey::KeyScancode(75)]) =~= set![PressKey::KeyScancode(31), PressKey::KeyScancode(75)]);
            assert(input_data.bindings() =~= m5);
        }
        let mut codes: Vec<usize> = Vec::new();
        codes.push(33);
        codes.push(77);
        proof {
            assert(codes@.map_values(|c: usize| PressKey::KeyScancode(c)) =~= seq![PressKey::KeyScancode(33), PressKey::KeyScancode(77)]);
            lemma_two_keys(PressKey::KeyScancode(33), PressKey::KeyScancode(77));
            assert(!m5.contains_key("right"@));
        }
        input_data.add_keys("right", codes);
        let ghost m6 = m5.insert("right"@, set![PressKey::KeyScancode(33), PressKey::KeyScancode(77)]);
        proof {
            assert(Set::<PressKey>::empty().union(set![PressKey::KeyScancode(33), PressKey::KeyScancode(77)]) =~= set![PressKey::KeyScancode(33), PressKey::KeyScancode(77)]);
            assert(input_data.bindings() =~= m6);
        }
        let mut codes: Vec<usize> = Vec::new();
        codes.push(57);
        proof {
            assert(codes@.map_values(|c: usize| PressKey::KeyScancode(c)) =~= seq![PressKey::KeyScancode(57)]);
            lemma_one_key(PressKey::KeyScancode(57));
            assert(!m6.contains_key("high"@));
        }
        input_data.add_keys("high", codes);
        let ghost m7 = m6.insert("high"@, set![PressKey::KeyScancode(57)]);
        proof {
            assert(Set::<PressKey>::empty().union(set![PressKey::KeyScancode(57)]) =~= set![PressKey::KeyScancode(57)]);
            assert(input_data.bindings() =~= m7);
        }
        let mut codes: Vec<usize> = Vec::new();
        codes.push(42);
        proof {
            assert(codes@.map_values(|c: usize| PressKey::KeyScancode(c)) =~= seq![PressKey::KeyScancode(42)]);
            lemma_one_key(PressKey::KeyScancode(42));
            assert(!m7.contains_key("low"@));
        }
        input_data.add_keys("low", codes);
        proof {
            assert(Set::<PressKey>::empty().union(set![PressKey::KeyScancode(42)]) =~= set![PressKey::KeyScancode(42)]);
            assert(input_data.bindings() =~= m7.insert("low"@, set![PressKey::KeyScancode(42)]));
            assert(input_data.bindings() =~= default_bindings());
        }
        input_data
    }

    /// Whether the name `key` has bindings.
    pub fn has_key(&self, key: &str) -> (r: bool)
        requires
            self.wf(),
        ensures
            r == self.bindings().contains_key(key@),
    {
        let name = key.to_owned();
        self.find_name(&name).is_some()
    }

    /// Whether any key bound to `key` is down.
    pub fn pressed(&self, key: &str) -> (r: bool)
        requires
            self.wf(),
            self.bindings().contains_key(key@),
        ensures
            r == key_down(self.press(), self.bindings()[key@]),
    {
        let name = key.to_owned();
        let idx = self.find_name(&name).unwrap();
        let ghost n = key@;
        let pks = &self.map_key[idx].1;
        let mut i: usize = 0;
        while i < pks.len()
            invariant
                self.wf(),
                pks == &self.map_key@[idx as int].1,
                self.map_key@[idx as int].0@ == n,
                n == key@,
                self.bindings().contains_key(n),
                idx < self.map_key@.len(),
                i <= pks@.len(),
                forall|j: int| 0 <= j < i ==> !self.is_down(#[trigger] pks@[j]),
            decreases pks@.len() - i,
        {
            let pk = pks[i];
            proof {
                assert(pks@[i as int] == pk);
                assert(pks@.contains(pk));
                assert(self.map_key@[idx as int].1@.contains(pk));
                assert(self.binds(n, pk));
                assert(self.bindings()[n] == Set::new(|q: PressKey| self.binds(n, q)));
            }
            let at = self.find_press(&pk).unwrap();
            proof {
                self.lemma_down_at(at as int);
            }
            if self.map_press[at].1 {
                proof {
                    assert(self.bindings()[n].contains(pk));
                    assert(self.press_keys()[at as int] == pk);
                    assert(self.press().contains_key(pk) && self.press()[pk]);
                }
                return true;
            }
            i += 1;
        }
        proof {
            assert forall|q: PressKey| self.bindings()[n].contains(q) && self.press().contains_key(q) implies !#[trigger] self.press()[q] by {
                let j = choose|j: int| 0 <= j < self.map_key@.len() && #[trigger] self.map_key@[j].0@ == n && self.map_key@[j].1@.contains(q);
                assert(self.key_names()[j] == self.key_names()[idx as int]);
                let m = choose|m: int| 0 <= m < pks@.len() && pks@[m] == q;
            }
        }
        false
    }
}

/// The key bindings that an input state starts with.
pub open spec fn default_bindings() -> Map<Seq<char>, Set<PressKey>> {
    map![
        "forward"@ => set![PressKey::KeyScancode(18), PressKey::KeyScancode(72)],
        "interact_1"@ => set![PressKey::MouseButton(1)],
        "interact_2"@ => set![PressKey::MouseButton(3)],
        "backward"@ => set![PressKey::KeyScancode(32), PressKey::KeyScancode(80)],
        "left"@ => set![PressKey::KeyScancode(31), PressKey::KeyScancode(75)],
        "right"@ => set![PressKey::KeyScancode(33), PressKey::KeyScancode(77)],
        "high"@ => set![PressKey::KeyScancode(57)],
        "low"@ => set![PressKey::KeyScancode(42)]
    ]
}

proof fn lemma_two_keys(a: PressKey, b: PressKey)
    ensures
        seq![a, b].to_set() == set![a, b],
{
    let s = seq![a, b];
    assert(s[0] == a && s[1] == b);
    assert(s.to_set() =~= set![a, b]);
}

proof fn lemma_one_key(a: PressKey)
    ensures
        seq![a].to_set() == set![a],
{
    let s = seq![a];
    assert(s[0] == a);
    assert(s.to_set() =~= set![a]);
}

/// Whether `v` holds `pk`.
fn holds_press(v: &Vec<PressKey>, pk: &PressKey) -> (r: bool)
    ensures
        r == v@.contains(*pk),
{
    let mut i: usize = 0;
    while i < v.len()
        invariant
            i <= v@.len(),
            forall|j: int| 0 <= j < i ==> v@[j] != *pk,
        decreases v@.len() - i,
    {
        if v[i] == *pk {
            assert(v@[i as int] == *pk);
            return true;
        }
        i += 1;
    }
    false
}

/// Pushing `e` adds exactly `e`.
pub proof fn lemma_push_contains<A>(s: Seq<A>, e: A)
    ensures
        forall|k: A| #[trigger] s.push(e).contains(k) == (s.contains(k) || k == e),
{
    assert forall|k: A| #[trigger] s.push(e).contains(k) == (s.contains(k) || k == e) by {
        if s.push(e).contains(k) {
            let j = choose|j: int| 0 <= j < s.push(e).len() && s.push(e)[j] == k;
            if j < s.len() {
                assert(s[j] == k);
            }
        }
        if s.contains(k) {
            let j = choose|j: int| 0 <= j < s.len() && s[j] == k;
            assert(s.push(e)[j] == k);
        }
        if k == e {
            assert(s.push(e)[s.len() as int] == k);
        }
    }
}

} // verus!
