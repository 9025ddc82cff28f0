//! The remapping engine: a table of rules and the state that decides, for
//! every incoming key event, which events go out and in what order.

use crate::keys::{Key, KeyEvent, KeyState};
use crate::suppressed_set::{
    linked_keys, set_contains, set_insert, set_new, set_pop_back, set_remove,
};
use linked_hash_set::LinkedHashSet;
use std::collections::{HashMap, HashSet};
use vstd::prelude::*;

verus! {

broadcast use vstd::std_specs::hash::group_hash_axioms;

/// A remap rule as the proofs see it: while every prefix is held, a press or
/// autorepeat of the trigger is replaced by the output key.
pub struct Rule {
    pub prefixes: Seq<Key>,
    pub trigger: Key,
    pub output: Key,
}

/// The rule that a non-empty key sequence describes: its last key is the
/// trigger and the keys before it, in order, are the prefixes.
pub open spec fn rule_from(keys: Seq<Key>, output: Key) -> Rule {
    Rule { prefixes: keys.drop_last(), trigger: keys.last(), output }
}

/// Why a rule or a rule table could not be built.
#[derive(Clone, Copy, Debug, PartialEq, Eq, Structural)]
pub enum Error {
    /// A rule was given no key at all, so it has no trigger.
    EmptyMappingError,
}

/// One remap rule.
#[derive(Debug)]
pub struct Mapping {
    prefixes: Vec<Key>,
    trigger: Key,
    output: Key,
}

impl View for Mapping {
    type V = Rule;

    closed spec fn view(&self) -> Rule {
        Rule { prefixes: self.prefixes@, trigger: self.trigger, output: self.output }
    }
}

impl Mapping {
    /// Builds the rule that `keys` describes, remapped to `output`; an empty
    /// key sequence has no trigger and is refused.
    pub fn new(keys: &[Key], output: Key) -> (r: Result<Mapping, Error>)
        ensures
            keys@.len() == 0 <==> r is Err,
            r matches Err(e) ==> e == Error::EmptyMappingError,
            r matches Ok(m) ==> m@ == rule_from(keys@, output),
    {
        let n = keys.len();
        if n == 0 {
            return Err(Error::EmptyMappingError);
        }
        let mut prefixes: Vec<Key> = Vec::new();
        let mut i: usize = 0;
        while i < n - 1
            invariant
                n == keys@.len(),
                n > 0,
                i <= n - 1,
                prefixes@ == keys@.take(i as int),
            decreases n - 1 - i,
        {
            prefixes.push(keys[i]);
            i += 1;
            assert(prefixes@ =~= keys@.take(i as int));
        }
        assert(prefixes@ =~= keys@.drop_last());
        Ok(Mapping { prefixes, trigger: keys[n - 1], output })
    }
}

/// Whether every key of `prefixes` is held.
pub open spec fn all_held(prefixes: Seq<Key>, pressed: Set<Key>) -> bool {
    forall|i: int| 0 <= i < prefixes.len() ==> pressed.contains(#[trigger] prefixes[i])
}

/// Whether `rule` fires for a press of `key` while exactly `pressed` is held.
pub open spec fn applies(rule: Rule, key: Key, pressed: Set<Key>) -> bool {
    rule.trigger == key && all_held(rule.prefixes, pressed)
}

/// Whether `rules[i]` fires for `key` and no earlier rule does.
pub open spec fn is_first_match(rules: Seq<Rule>, key: Key, pressed: Set<Key>, i: int) -> bool {
    &&& 0 <= i < rules.len()
    &&& applies(rules[i], key, pressed)
    &&& forall|j: int| 0 <= j < i ==> !applies(#[trigger] rules[j], key, pressed)
}

/// The earliest rule of the table that fires for `key`, if any.
pub open spec fn first_match(rules: Seq<Rule>, key: Key, pressed: Set<Key>) -> Option<Rule> {
    if exists|i: int| is_first_match(rules, key, pressed, i) {
        Some(rules[choose|i: int| is_first_match(rules, key, pressed, i)])
    } else {
        None
    }
}

/// The suppressed keys after the prefixes of a firing rule are hidden: each
/// prefix, in order, that is not yet suppressed is appended.
pub open spec fn suppress(prefixes: Seq<Key>, suppressed: Seq<Key>) -> Seq<Key>
    decreases prefixes.len(),
{
    if prefixes.len() == 0 {
        suppressed
    } else {
        let before = suppress(prefixes.drop_last(), suppressed);
        if before.contains(prefixes.last()) {
            before
        } else {
            before.push(prefixes.last())
        }
    }
}

/// The synthetic releases that hide the prefixes of a firing rule: one for
/// each prefix, in order, that is not yet suppressed.
pub open spec fn suppression_events(prefixes: Seq<Key>, suppressed: Seq<Key>) -> Seq<(Key, KeyState)>
    decreases prefixes.len(),
{
    if prefixes.len() == 0 {
        seq![]
    } else {
        let before = suppress(prefixes.drop_last(), suppressed);
        let events = suppression_events(prefixes.drop_last(), suppressed);
        if before.contains(prefixes.last()) {
            events
        } else {
            events.push((prefixes.last(), KeyState::Released))
        }
    }
}

/// The synthetic presses that restore suppressed keys: one for each, the
/// most recently suppressed first.
pub open spec fn restoration_events(suppressed: Seq<Key>) -> Seq<(Key, KeyState)>
    decreases suppressed.len(),
{
    if suppressed.len() == 0 {
        seq![]
    } else {
        seq![(suppressed.last(), KeyState::Pressed)] + restoration_events(suppressed.drop_last())
    }
}

/// The held keys after `event`: a press or autorepeat holds its key, a
/// release lets it go, and any other state changes nothing.
pub open spec fn pressed_after(pressed: Set<Key>, event: KeyEvent) -> Set<Key> {
    match event.state {
        KeyState::Pressed | KeyState::Autorepeat => pressed.insert(event.key),
        KeyState::Released => pressed.remove(event.key),
        KeyState::Other(_) => pressed,
    }
}

/// The state of a key mapper as the proofs see it.
#[verifier::ext_equal]
pub struct MapperState {
    /// The rule table, highest priority first.
    pub rules: Seq<Rule>,
    /// The keys physically held, as observed on the input.
    pub pressed: Set<Key>,
    /// The prefixes whose release has been emitted while they are still
    /// held, oldest first.
    pub suppressed: Seq<Key>,
    /// For each trigger that fired and is not yet released, the key it was
    /// translated to.
    pub active: Map<Key, Key>,
}

/// The state after `event` and the events emitted for it, decided on the
/// state as it was before the event.
pub open spec fn step(s: MapperState, event: KeyEvent) -> (MapperState, Seq<(Key, KeyState)>) {
    let pressed = pressed_after(s.pressed, event);
    let found = if event.state.is_down() {
        first_match(s.rules, event.key, s.pressed)
    } else {
        None
    };
    match found {
        Some(rule) => (
            MapperState {
                rules: s.rules,
                pressed,
                suppressed: suppress(rule.prefixes, s.suppressed),
                active: s.active.insert(event.key, rule.output),
            },
            suppression_events(rule.prefixes, s.suppressed).push((rule.output, event.state)),
        ),
        None => if s.active.contains_key(event.key) {
            (
                MapperState {
                    rules: s.rules,
                    pressed,
                    suppressed: seq![],
                    active: s.active.remove(event.key),
                },
                seq![(s.active[event.key], event.state)] + restoration_events(s.suppressed),
            )
        } else if s.suppressed.contains(event.key) {
            (
                MapperState {
                    rules: s.rules,
                    pressed,
                    suppressed: s.suppressed.filter(|k: Key| k != event.key),
                    active: s.active,
                },
                seq![],
            )
        } else {
            (
                MapperState {
                    rules: s.rules,
                    pressed,
                    suppressed: s.suppressed,
                    active: s.active,
                },
                seq![(event.key, event.state)],
            )
        },
    }
}

/// The earliest firing rule is the one `first_match` names.
proof fn lemma_first_match_at(rules: Seq<Rule>, key: Key, pressed: Set<Key>, i: int)
    requires
        is_first_match(rules, key, pressed, i),
    ensures
        first_match(rules, key, pressed) == Some(rules[i]),
{
    let k = choose|k: int| is_first_match(rules, key, pressed, k);
    assert(is_first_match(rules, key, pressed, k));
    if k < i {
        assert(!applies(rules[k], key, pressed));
    }
    if i < k {
        assert(!applies(rules[i], key, pressed));
    }
}

/// Where no rule fires, `first_match` names none.
proof fn lemma_first_match_none(rules: Seq<Rule>, key: Key, pressed: Set<Key>)
    requires
        forall|i: int| 0 <= i < rules.len() ==> !applies(#[trigger] rules[i], key, pressed),
    ensures
        first_match(rules, key, pressed) is None,
{
    if exists|i: int| is_first_match(rules, key, pressed, i) {
        let k = choose|k: int| is_first_match(rules, key, pressed, k);
        assert(!applies(rules[k], key, pressed));
    }
}

/// Filtering out a key that a sequence does not hold leaves it unchanged.
proof fn lemma_filter_absent(s: Seq<Key>, key: Key)
    requires
        !s.contains(key),
    ensures
        s.filter(|k: Key| k != key) == s,
    decreases s.len(),
{
    reveal(Seq::filter);
    if s.len() > 0 {
        assert(!s.drop_last().contains(key)) by {
            if s.drop_last().contains(key) {
                let j = choose|j: int| 0 <= j < s.drop_last().len() && s.drop_last()[j] == key;
                assert(s[j] == key);
            }
        }
        lemma_filter_absent(s.drop_last(), key);
        assert(s.drop_last().push(s.last()) =~= s);
    }
}

/// Keeps the held keys in step with `event`.
fn update_pressed_keys(pressed_keys: &mut HashSet<Key>, event: &KeyEvent)
    ensures
        final(pressed_keys)@ == pressed_after(old(pressed_keys)@, *event),
{
    match event.state {
        KeyState::Pressed | KeyState::Autorepeat => {
            pressed_keys.insert(event.key);
        },
        KeyState::Released => {
            pressed_keys.remove(&event.key);
        },
        KeyState::Other(_) => {},
    }
}

/// Hides the prefixes of a firing rule: each one, in order, that is not yet
/// suppressed is released and recorded as suppressed.
fn release_prefixes(suppressed: &mut LinkedHashSet<Key>, prefixes: &Vec<Key>) -> (events: Vec<
    (Key, KeyState),
>)
    ensures
        linked_keys(*final(suppressed)) == suppress(prefixes@, linked_keys(*old(suppressed))),
        events@ == suppression_events(prefixes@, linked_keys(*old(suppressed))),
{
    let ghost start = linked_keys(*suppressed);
    let mut events: Vec<(Key, KeyState)> = Vec::new();
    let mut i: usize = 0;
    while i < prefixes.len()
        invariant
            i <= prefixes.len(),
            linked_keys(*suppressed) == suppress(prefixes@.take(i as int), start),
            events@ == suppression_events(prefixes@.take(i as int), start),
        decreases prefixes.len() - i,
    {
        let key = prefixes[i];
        assert(prefixes@.take(i + 1).drop_last() =~= prefixes@.take(i as int));
        if !set_contains(suppressed, key) {
            proof {
                lemma_filter_absent(linked_keys(*suppressed), key);
            }
            set_insert(suppressed, key);
            events.push((key, KeyState::Released));
        }
        i += 1;
    }
    assert(prefixes@.take(prefixes@.len() as int) =~= prefixes@);
    events
}

/// Restores every suppressed key, the most recently suppressed first, by
/// appending a press for each to `events`.
fn restore_prefixes(suppressed: &mut LinkedHashSet<Key>, events: &mut Vec<(Key, KeyState)>)
    ensures
        linked_keys(*final(suppressed)) == Seq::<Key>::empty(),
        final(events)@ == old(events)@ + restoration_events(linked_keys(*old(suppressed))),
{
    let ghost start_events = events@;
    let ghost start = linked_keys(*suppressed);
    assert(start_events =~= start_events + Seq::<(Key, KeyState)>::empty());
    loop
        invariant
            events@ + restoration_events(linked_keys(*suppressed)) == start_events
                + restoration_events(start),
        ensures
            linked_keys(*suppressed).len() == 0,
            events@ == start_events + restoration_events(start),
        decreases linked_keys(*suppressed).len(),
    {
        let ghost before = linked_keys(*suppressed);
        let ghost events_before = events@;
        match set_pop_back(suppressed) {
            Some(key) => {
                events.push((key, KeyState::Pressed));
                assert(events@ + restoration_events(linked_keys(*suppressed)) =~= events_before
                    + restoration_events(before));
            },
            None => {
                assert(events@ =~= events@ + restoration_events(before));
                break ;
            },
        }
    }
    assert(linked_keys(*suppressed) =~= Seq::<Key>::empty());
}

/// The remapping engine: a rule table and the state of the keys it has seen.
pub struct KeyMapper {
    mappings: Vec<Mapping>,
    pressed_keys: HashSet<Key>,
    /// Prefixes whose release was already emitted to isolate a mapping.
    already_released: LinkedHashSet<Key>,
    /// Triggers that fired, with the key each was translated to, so that
    /// their release is translated too.
    mapped_keys: HashMap<Key, Key>,
}

impl View for KeyMapper {
    type V = MapperState;

    closed spec fn view(&self) -> MapperState {
        MapperState {
            rules: self.mappings@.map_values(|m: Mapping| m@),
            pressed: self.pressed_keys@,
            suppressed: linked_keys(self.already_released),
            active: self.mapped_keys@,
        }
    }
}

impl KeyMapper {
    /// A mapper with no rule and no key seen.
    pub fn new() -> (r: KeyMapper)
        ensures
            r@.rules == Seq::<Rule>::empty(),
            r@.pressed == Set::<Key>::empty(),
            r@.suppressed == Seq::<Key>::empty(),
            r@.active == Map::<Key, Key>::empty(),
            well_formed(r@),
    {
        let r = KeyMapper {
            mappings: Vec::new(),
            pressed_keys: HashSet::new(),
            already_released: set_new(),
            mapped_keys: HashMap::new(),
        };
        assert(r@.rules =~= Seq::<Rule>::empty());
        r
    }

    /// Appends the rule that `keys` describes, remapped to `new`, at the
    /// lowest priority; an empty key sequence is refused and changes nothing.
    pub fn add_mapping(&mut self, keys: &[Key], new: &Key) -> (r: Result<(), Error>)
        ensures
            keys@.len() == 0 <==> r is Err,
            r matches Err(e) ==> e == Error::EmptyMappingError && final(self)@ == old(self)@,
            r is Ok ==> final(self)@ == (MapperState {
                rules: old(self)@.rules.push(rule_from(keys@, *new)),
                ..old(self)@
            }),
            well_formed(old(self)@) ==> well_formed(final(self)@),
    {
        match Mapping::new(keys, *new) {
            Ok(mapping) => {
                self.mappings.push(mapping);
                assert(self@.rules =~= old(self)@.rules.push(rule_from(keys@, *new)));
                proof {
                    if well_formed(old(self)@) {
                        assert forall|k: Key| #[trigger] self@.active.contains_key(k) implies exists|j: int|
                            0 <= j < self@.rules.len() && (#[trigger] self@.rules[j]).trigger == k by {
                            let j = choose|j: int|
                                0 <= j < old(self)@.rules.len() && (#[trigger] old(self)@.rules[j]).trigger == k;
                            assert(self@.rules[j] == old(self)@.rules[j]);
                        }
                    }
                }
                Ok(())
            },
            Err(e) => Err(e),
        }
    }

    /// A mapper with no key seen whose rule table holds the rule of each
    /// entry, in order; the table fails as a whole when any entry has no key.
    pub fn with_mappings(entries: &[(Vec<Key>, Key)]) -> (r: Result<KeyMapper, Error>)
        ensures
            r is Ok <==> forall|i: int| 0 <= i < entries@.len() ==> (#[trigger] entries@[i]).0@.len() > 0,
            r matches Err(e) ==> e == Error::EmptyMappingError,
            r matches Ok(m) ==> m@ == (MapperState {
                rules: entries@.map_values(|e: (Vec<Key>, Key)| rule_from(e.0@, e.1)),
                pressed: Set::empty(),
                suppressed: seq![],
                active: Map::empty(),
            }),
            r matches Ok(m) ==> well_formed(m@),
    {
        let mut mapper = KeyMapper::new();
        let mut i: usize = 0;
        while i < entries.len()
            invariant
                i <= entries@.len(),
                forall|j: int| 0 <= j < i ==> (#[trigger] entries@[j]).0@.len() > 0,
                mapper@ == (MapperState {
                    rules: entries@.take(i as int).map_values(
                        |e: (Vec<Key>, Key)| rule_from(e.0@, e.1),
                    ),
                    pressed: Set::empty(),
                    suppressed: seq![],
                    active: Map::empty(),
                }),
            decreases entries@.len() - i,
        {
            let entry = &entries[i];
            if mapper.add_mapping(entry.0.as_slice(), &entry.1).is_err() {
                return Err(Error::EmptyMappingError);
            }
            assert(entries@.take(i + 1).map_values(|e: (Vec<Key>, Key)| rule_from(e.0@, e.1))
                =~= entries@.take(i as int).map_values(|e: (Vec<Key>, Key)| rule_from(e.0@, e.1)).push(
                rule_from(entry.0@, entry.1),
            ));
            i += 1;
        }
        assert(entries@.take(entries@.len() as int) =~= entries@);
        Ok(mapper)
    }

    /// Whether every key of `prefixes` is held.
    fn all_pressed(&self, prefixes: &Vec<Key>) -> (r: bool)
        ensures
            r == all_held(prefixes@, self@.pressed),
    {
        let mut i: usize = 0;
        while i < prefixes.len()
            invariant
                i <= prefixes.len(),
                forall|j: int| 0 <= j < i ==> self.pressed_keys@.contains(#[trigger] prefixes@[j]),
            decreases prefixes.len() - i,
        {
            if !self.pressed_keys.contains(&prefixes[i]) {
                return false;
            }
            i += 1;
        }
        true
    }

    /// The index of the earliest rule that fires for `key`, if any.
    fn find_mapping(&self, key: Key) -> (r: Option<usize>)
        ensures
            r matches Some(i) ==> is_first_match(self@.rules, key, self@.pressed, i as int),
            r is None ==> forall|i: int|
                0 <= i < self@.rules.len() ==> !applies(#[trigger] self@.rules[i], key, self@.pressed),
    {
        let mut i: usize = 0;
        while i < self.mappings.len()
            invariant
                i <= self.mappings.len(),
                forall|j: int| 0 <= j < i ==> !applies(#[trigger] self@.rules[j], key, self@.pressed),
            decreases self.mappings.len() - i,
        {
            let mapping = &self.mappings[i];
            if mapping.trigger == key && self.all_pressed(&mapping.prefixes) {
                return Some(i);
            }
            i += 1;
        }
        None
    }

    /// Decides the events to emit for `event` and updates the state.
    ///
    /// A press or autorepeat for which a rule fires hides the rule's prefixes
    /// and is translated; the later release of that trigger is translated
    /// too and restores every suppressed prefix; the real release of a
    /// suppressed prefix is swallowed; any other event passes through.
    pub fn handle_key_event(&mut self, event: &KeyEvent) -> (r: Vec<(Key, KeyState)>)
        ensures
            final(self)@ == step(old(self)@, *event).0,
            r@ == step(old(self)@, *event).1,
            well_formed(old(self)@) ==> well_formed(final(self)@),
    {
        let matched = if event.state.is_down() {
            self.find_mapping(event.key)
        } else {
            None
        };
        proof {
            if let Some(i) = matched {
                lemma_first_match_at(self@.rules, event.key, self@.pressed, i as int);
            } else if event.state.is_down() {
                lemma_first_match_none(self@.rules, event.key, self@.pressed);
            }
            if well_formed(self@) {
                lemma_step_keeps_well_formed(self@, *event);
            }
        }
        update_pressed_keys(&mut self.pressed_keys, event);
        match matched {
            Some(i) => {
                let output = self.mappings[i].output;
                self.mapped_keys.insert(event.key, output);
                let mut events = release_prefixes(
                    &mut self.already_released,
                    &self.mappings[i].prefixes,
                );
                events.push((output, event.state));
                assert(self@ =~= step(old(self)@, *event).0);
                events
            },
            None => match self.mapped_keys.remove(&event.key) {
                Some(new) => {
                    let mut events = vec![(new, event.state)];
                    restore_prefixes(&mut self.already_released, &mut events);
                    assert(self@ =~= step(old(self)@, *event).0);
                    events
                },
                None => {
                    if set_contains(&self.already_released, event.key) {
                        set_remove(&mut self.already_released, event.key);
                        assert(self@ =~= step(old(self)@, *event).0);
                        Vec::new()
                    } else {
                        assert(self@ =~= step(old(self)@, *event).0);
                        vec![(event.key, event.state)]
                    }
                },
            },
        }
    }
}

/// Some rule fires for `key` as soon as any rule of the table applies.
proof fn lemma_some_rule_fires(rules: Seq<Rule>, key: Key, pressed: Set<Key>, i: int)
    requires
        0 <= i < rules.len(),
        applies(rules[i], key, pressed),
    ensures
        first_match(rules, key, pressed) is Some,
    decreases i,
{
    if exists|j: int| 0 <= j < i && applies(#[trigger] rules[j], key, pressed) {
        let j = choose|j: int| 0 <= j < i && applies(#[trigger] rules[j], key, pressed);
        lemma_some_rule_fires(rules, key, pressed, j);
    } else {
        assert(is_first_match(rules, key, pressed, i));
    }
}

/// An event for which no rule fires, and whose key is neither a translated
/// trigger nor a suppressed prefix, is emitted unchanged, and of the state
/// only the held keys change.
pub proof fn lemma_passthrough(s: MapperState, event: KeyEvent)
    requires
        forall|i: int| 0 <= i < s.rules.len() ==> !applies(#[trigger] s.rules[i], event.key, s.pressed),
        !s.active.contains_key(event.key),
        !s.suppressed.contains(event.key),
    ensures
        step(s, event).1 == seq![(event.key, event.state)],
        step(s, event).0 == (MapperState { pressed: pressed_after(s.pressed, event), ..s }),
{
    lemma_first_match_none(s.rules, event.key, s.pressed);
}

/// A rule fires only at a press or autorepeat of its trigger while all its
/// prefixes are already held: after any event its key stands translated
/// exactly when a rule fired for it, and no other key gains or changes a
/// translation.
pub proof fn lemma_fires_only_on_trigger_edge(s: MapperState, event: KeyEvent)
    ensures
        step(s, event).0.active.contains_key(event.key) <==> event.state.is_down() && exists|i: int|
            0 <= i < s.rules.len() && applies(#[trigger] s.rules[i], event.key, s.pressed),
        forall|k: Key|
            k != event.key && #[trigger] step(s, event).0.active.contains_key(k) ==> s.active.contains_key(k)
                && step(s, event).0.active[k] == s.active[k],
{
    if event.state.is_down() && exists|i: int|
        0 <= i < s.rules.len() && applies(#[trigger] s.rules[i], event.key, s.pressed) {
        let i = choose|i: int| 0 <= i < s.rules.len() && applies(#[trigger] s.rules[i], event.key, s.pressed);
        lemma_some_rule_fires(s.rules, event.key, s.pressed, i);
    } else if event.state.is_down() {
        lemma_first_match_none(s.rules, event.key, s.pressed);
    }
}

/// A trigger pressed while no rule for it applies is not translated, and
/// stays untranslated through any following event of another key, such as a
/// press of its prefixes: holding the prefixes afterwards does not fire it.
pub proof fn lemma_trigger_before_prefixes(s: MapperState, press: KeyEvent, next: KeyEvent)
    requires
        forall|i: int| 0 <= i < s.rules.len() ==> !applies(#[trigger] s.rules[i], press.key, s.pressed),
        next.key != press.key,
    ensures
        !step(s, press).0.active.contains_key(press.key),
        !step(step(s, press).0, next).0.active.contains_key(press.key),
{
    lemma_fires_only_on_trigger_edge(s, press);
    lemma_fires_only_on_trigger_edge(step(s, press).0, next);
}

/// Every translated key is the trigger of some rule of the table.
pub open spec fn active_are_triggers(s: MapperState) -> bool {
    forall|k: Key|
        #[trigger] s.active.contains_key(k) ==> exists|i: int|
            0 <= i < s.rules.len() && (#[trigger] s.rules[i]).trigger == k
}

/// Handling an event keeps every translated key a trigger of some rule.
pub proof fn lemma_step_keeps_active_triggers(s: MapperState, event: KeyEvent)
    requires
        active_are_triggers(s),
    ensures
        active_are_triggers(step(s, event).0),
{
    let found = if event.state.is_down() {
        first_match(s.rules, event.key, s.pressed)
    } else {
        None
    };
    if let Some(rule) = found {
        let i = choose|i: int| is_first_match(s.rules, event.key, s.pressed, i);
        let after = step(s, event).0;
        assert forall|k: Key| #[trigger] after.active.contains_key(k) implies exists|j: int|
            0 <= j < after.rules.len() && (#[trigger] after.rules[j]).trigger == k by {
            if k == event.key {
                assert(after.rules[i].trigger == k);
            } else {
                assert(s.active.contains_key(k));
            }
        }
    } else {
        let after = step(s, event).0;
        assert forall|k: Key| #[trigger] after.active.contains_key(k) implies exists|j: int|
            0 <= j < after.rules.len() && (#[trigger] after.rules[j]).trigger == k by {
            assert(s.active.contains_key(k));
            let j = choose|j: int| 0 <= j < s.rules.len() && (#[trigger] s.rules[j]).trigger == k;
            assert(after.rules[j].trigger == k);
        }
    }
}

/// An event whose key is the trigger of no rule, and is not a suppressed
/// prefix, is emitted unchanged, whatever is held or translated.
pub proof fn lemma_no_rule_for_key(s: MapperState, event: KeyEvent)
    requires
        active_are_triggers(s),
        forall|i: int| 0 <= i < s.rules.len() ==> (#[trigger] s.rules[i]).trigger != event.key,
        !s.suppressed.contains(event.key),
    ensures
        step(s, event).1 == seq![(event.key, event.state)],
{
    assert(!s.active.contains_key(event.key));
    lemma_passthrough(s, event);
}

/// Appending a key that a duplicate-free sequence lacks keeps it free of
/// duplicates.
proof fn lemma_push_absent_no_duplicates(s: Seq<Key>, key: Key)
    requires
        s.no_duplicates(),
        !s.contains(key),
    ensures
        s.push(key).no_duplicates(),
{
    let t = s.push(key);
    assert forall|i: int, j: int| 0 <= i < t.len() && 0 <= j < t.len() && i != j implies t[i]
        != t[j] by {
        if i == s.len() {
            assert(s[j] == t[j]);
        } else if j == s.len() {
            assert(s[i] == t[i]);
        }
    }
}

/// Hiding prefixes keeps the suppressed keys free of duplicates.
proof fn lemma_suppress_no_duplicates(prefixes: Seq<Key>, suppressed: Seq<Key>)
    requires
        suppressed.no_duplicates(),
    ensures
        suppress(prefixes, suppressed).no_duplicates(),
    decreases prefixes.len(),
{
    if prefixes.len() > 0 {
        lemma_suppress_no_duplicates(prefixes.drop_last(), suppressed);
        let before = suppress(prefixes.drop_last(), suppressed);
        if !before.contains(prefixes.last()) {
            lemma_push_absent_no_duplicates(before, prefixes.last());
        }
    }
}

/// Filtering a key out of a duplicate-free sequence keeps it free of
/// duplicates.
proof fn lemma_filter_no_duplicates(s: Seq<Key>, key: Key)
    requires
        s.no_duplicates(),
    ensures
        s.filter(|k: Key| k != key).no_duplicates(),
    decreases s.len(),
{
    reveal(Seq::filter);
    if s.len() > 0 {
        let rest = s.drop_last();
        assert(rest.no_duplicates());
        lemma_filter_no_duplicates(rest, key);
        if s.last() != key {
            assert(!rest.contains(s.last())) by {
                if rest.contains(s.last()) {
                    let j = choose|j: int| 0 <= j < rest.len() && rest[j] == s.last();
                    assert(s[j] == s[s.len() - 1]);
                }
            }
            if rest.filter(|k: Key| k != key).contains(s.last()) {
                rest.lemma_filter_contains_rev(|k: Key| k != key, s.last());
            }
            lemma_push_absent_no_duplicates(rest.filter(|k: Key| k != key), s.last());
        }
    }
}

/// What holds of every mapper state reachable from a fresh mapper: each
/// translated key is a trigger of some rule, and no key is suppressed twice.
pub open spec fn well_formed(s: MapperState) -> bool {
    active_are_triggers(s) && s.suppressed.no_duplicates()
}

/// Handling an event keeps the state well formed.
pub proof fn lemma_step_keeps_well_formed(s: MapperState, event: KeyEvent)
    requires
        well_formed(s),
    ensures
        well_formed(step(s, event).0),
{
    lemma_step_keeps_active_triggers(s, event);
    let found = if event.state.is_down() {
        first_match(s.rules, event.key, s.pressed)
    } else {
        None
    };
    match found {
        Some(rule) => lemma_suppress_no_duplicates(rule.prefixes, s.suppressed),
        None => {
            if !s.active.contains_key(event.key) && s.suppressed.contains(event.key) {
                lemma_filter_no_duplicates(s.suppressed, event.key);
            }
        },
    }
}

} // verus!
