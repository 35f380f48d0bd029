//! Edge-detecting button state.
//!
//! The tracker keeps two snapshots of button state, the current tick's and
//! the previous tick's, keyed by an integer button code.  Comparing the two
//! yields just-pressed and just-released edges.  The shell feeds presses in
//! as events arrive and rolls the snapshots over once per tick.

use vstd::prelude::*;

verus! {

/// The state recorded for `key`: the value of its first entry, scanning
/// front to back, or `None` when the key was never recorded.
pub open spec fn lookup(entries: Seq<(u32, bool)>, key: u32) -> Option<bool>
    decreases entries.len(),
{
    if entries.len() == 0 {
        None
    } else if entries[0].0 == key {
        Some(entries[0].1)
    } else {
        lookup(entries.drop_first(), key)
    }
}

/// Whether `entries` records `key` as held down.
pub open spec fn pressed_in(entries: Seq<(u32, bool)>, key: u32) -> bool {
    lookup(entries, key) == Some(true)
}

/// Tracks pressed state for a set of buttons across ticks, so that fresh
/// presses and releases can be told from held buttons.
pub struct ButtonStateTracker {
    current: Vec<(u32, bool)>,
    last: Vec<(u32, bool)>,
}

/// Each key appears at most once.
pub open spec fn keys_unique(entries: Seq<(u32, bool)>) -> bool {
    forall|i: int, j: int|
        0 <= i < j < entries.len() ==> (#[trigger] entries[i]).0 != (#[trigger] entries[j]).0
}

impl ButtonStateTracker {
    /// The per-tick snapshot of button state.
    pub closed spec fn current_view(self) -> Seq<(u32, bool)> {
        self.current@
    }

    /// The previous tick's snapshot.
    pub closed spec fn last_view(self) -> Seq<(u32, bool)> {
        self.last@
    }

    /// Both snapshots record each key at most once.
    pub open spec fn wf(self) -> bool {
        keys_unique(self.current_view()) && keys_unique(self.last_view())
    }

    /// An empty tracker: no button was ever seen.
    pub fn new() -> (t: ButtonStateTracker)
        ensures
            t.wf(),
            t.current_view() =~= Seq::<(u32, bool)>::empty(),
            t.last_view() =~= Seq::<(u32, bool)>::empty(),
    {
        ButtonStateTracker { current: Vec::new(), last: Vec::new() }
    }

    /// Whether `key` is held down this tick.
    pub fn is_pressed(&self, key: u32) -> (r: bool)
        ensures
            r == pressed_in(self.current_view(), key),
    {
        lookup_entries(&self.current, key).unwrap_or(false)
    }

    /// Whether `key` was held down last tick.
    pub fn was_pressed(&self, key: u32) -> (r: bool)
        ensures
            r == pressed_in(self.last_view(), key),
    {
        lookup_entries(&self.last, key).unwrap_or(false)
    }

    /// Whether `key` went down this tick: held now, not held last tick.
    pub fn is_just_pressed(&self, key: u32) -> (r: bool)
        ensures
            r == (pressed_in(self.current_view(), key) && !pressed_in(self.last_view(), key)),
    {
        self.is_pressed(key) && !self.was_pressed(key)
    }

    /// Whether `key` went up this tick: held last tick, not held now.
    pub fn is_just_released(&self, key: u32) -> (r: bool)
        ensures
            r == (pressed_in(self.last_view(), key) && !pressed_in(self.current_view(), key)),
    {
        self.was_pressed(key) && !self.is_pressed(key)
    }

    /// Records `key` as held or released this tick, replacing any earlier
    /// record of it.
    pub fn update(&mut self, key: u32, value: bool)
        requires
            old(self).wf(),
        ensures
            final(self).wf(),
            final(self).last_view() == old(self).last_view(),
            forall|k: u32|
                lookup(final(self).current_view(), k) == (if k == key {
                    Some(value)
                } else {
                    lookup(old(self).current_view(), k)
                }),
    {
        set_entry(&mut self.current, key, value);
    }

    /// Rolls the tick over: every record of the current snapshot is
    /// copied into the previous-tick snapshot.
    pub fn tick_end(&mut self)
        requires
            old(self).wf(),
        ensures
            final(self).wf(),
            final(self).current_view() == old(self).current_view(),
            forall|k: u32|
                lookup(final(self).last_view(), k) == (match lookup(
                    old(self).current_view(),
                    k,
                ) {
                    Some(v) => Some(v),
                    None => lookup(old(self).last_view(), k),
                }),
    {
        let ghost cur0 = self.current@;
        let ghost last0 = self.last@;
        let n = self.current.len();
        let mut i: usize = 0;
        while i < n
            invariant
                keys_unique(self.current@),
                keys_unique(self.last@),
                self.current@ == cur0,
                i <= n,
                n == cur0.len(),
                forall|k: u32|
                    lookup(self.last@, k) == (match lookup_prefix(cur0, i as int, k) {
                        Some(v) => Some(v),
                        None => lookup(last0, k),
                    }),
            decreases n - i,
        {
            let (k, v) = self.current[i];
            let ghost last_pre = self.last@;
            set_entry(&mut self.last, k, v);
            proof {
                lemma_lookup_prefix_step(cur0, i as int, k, v);
            }
            i = i + 1;
        }
        proof {
            assert forall|k: u32|
                lookup(self.last@, k) == (match lookup(cur0, k) {
                    Some(v) => Some(v),
                    None => lookup(last0, k),
                }) by {
                lemma_lookup_prefix_all(cur0, k);
            }
        }
    }
}

/// The state recorded for `key` among the first `upto` entries.
pub open spec fn lookup_prefix(entries: Seq<(u32, bool)>, upto: int, key: u32) -> Option<bool> {
    lookup(entries.take(upto), key)
}

/// Scanning one more entry refines a prefix lookup: the new entry answers
/// for its own key only where no earlier entry did — and with unique keys
/// no earlier entry records the same key.
proof fn lemma_lookup_prefix_step(entries: Seq<(u32, bool)>, i: int, k: u32, v: bool)
    requires
        keys_unique(entries),
        0 <= i < entries.len(),
        entries[i] == (k, v),
    ensures
        forall|key: u32|
            lookup_prefix(entries, i + 1, key) == (if key == k {
                Some(v)
            } else {
                lookup_prefix(entries, i, key)
            }),
{
    assert forall|key: u32|
        lookup_prefix(entries, i + 1, key) == (if key == k {
            Some(v)
        } else {
            lookup_prefix(entries, i, key)
        }) by {
        lemma_lookup_take_snoc(entries, i, key);
        if key == k {
            lemma_lookup_absent_in_prefix(entries, i, key);
        }
    }
}

/// Looking a key up in one more entry of a prefix: the longer prefix
/// answers like the shorter one, unless the shorter one is silent and the
/// new entry matches.
proof fn lemma_lookup_take_snoc(entries: Seq<(u32, bool)>, i: int, key: u32)
    requires
        0 <= i < entries.len(),
    ensures
        lookup(entries.take(i + 1), key) == (match lookup(entries.take(i), key) {
            Some(v) => Some(v),
            None => if entries[i].0 == key {
                Some(entries[i].1)
            } else {
                None
            },
        }),
    decreases i,
{
    if i == 0 {
        assert(entries.take(0) =~= Seq::<(u32, bool)>::empty());
        assert(entries.take(1) =~= seq![entries[0]]);
        assert(entries.take(1).drop_first() =~= Seq::<(u32, bool)>::empty());
    } else {
        assert(entries.take(i + 1)[0] == entries[0]);
        assert(entries.take(i)[0] == entries[0]);
        if entries.take(i + 1)[0].0 == key {
        } else {
            lemma_lookup_take_snoc(entries.drop_first(), i - 1, key);
            assert(entries.drop_first()[i - 1] == entries[i]);
            assert(entries.take(i + 1).drop_first() =~= entries.drop_first().take(i));
            assert(entries.take(i).drop_first() =~= entries.drop_first().take(i - 1));
        }
    }
}

/// With unique keys, a key stored at position `i` is absent from the
/// prefix before `i`.
proof fn lemma_lookup_absent_in_prefix(entries: Seq<(u32, bool)>, i: int, key: u32)
    requires
        keys_unique(entries),
        0 <= i < entries.len(),
        entries[i].0 == key,
    ensures
        lookup(entries.take(i), key) is None,
{
    lemma_lookup_none_when_no_key(entries.take(i), key);
}

/// A key no entry carries is never found.
proof fn lemma_lookup_none_when_no_key(entries: Seq<(u32, bool)>, key: u32)
    requires
        forall|j: int| 0 <= j < entries.len() ==> (#[trigger] entries[j]).0 != key,
    ensures
        lookup(entries, key) is None,
    decreases entries.len(),
{
    if entries.len() > 0 {
        lemma_lookup_none_when_no_key(entries.drop_first(), key);
    }
}

/// A full-length prefix lookup is the plain lookup.
proof fn lemma_lookup_prefix_all(entries: Seq<(u32, bool)>, key: u32)
    ensures
        lookup_prefix(entries, entries.len() as int, key) == lookup(entries, key),
{
    assert(entries.take(entries.len() as int) =~= entries);
}

/// Finds the entry for `key`, scanning front to back.
fn lookup_entries(entries: &Vec<(u32, bool)>, key: u32) -> (r: Option<bool>)
    ensures
        r == lookup(entries@, key),
{
    let mut i: usize = 0;
    proof {
        assert(entries@.skip(0) =~= entries@);
    }
    while i < entries.len()
        invariant
            i <= entries.len(),
            lookup(entries@, key) == lookup(entries@.skip(i as int), key),
            forall|j: int| 0 <= j < i ==> (#[trigger] entries@[j]).0 != key,
        decreases entries.len() - i,
    {
        let (k, v) = entries[i];
        if k == key {
            proof {
                assert(entries@.skip(i as int)[0] == (k, v));
            }
            return Some(v);
        }
        proof {
            assert(entries@.skip(i as int).drop_first() =~= entries@.skip(i as int + 1));
        }
        i = i + 1;
    }
    proof {
        assert(entries@.skip(i as int).len() == 0);
    }
    None
}

/// Writes `value` for `key`: replaces the key's entry, or appends one.
fn set_entry(entries: &mut Vec<(u32, bool)>, key: u32, value: bool)
    requires
        keys_unique(old(entries)@),
    ensures
        keys_unique(final(entries)@),
        forall|k: u32|
            lookup(final(entries)@, k) == (if k == key {
                Some(value)
            } else {
                lookup(old(entries)@, k)
            }),
{
    let mut i: usize = 0;
    while i < entries.len()
        invariant
            keys_unique(entries@),
            entries@ == old(entries)@,
            i <= entries.len(),
            forall|j: int| 0 <= j < i ==> (#[trigger] entries@[j]).0 != key,
        decreases entries.len() - i,
    {
        let (k, _) = entries[i];
        if k == key {
            entries.set(i, (key, value));
            proof {
                assert forall|k2: u32|
                    lookup(entries@, k2) == (if k2 == key {
                        Some(value)
                    } else {
                        lookup(old(entries)@, k2)
                    }) by {
                    lemma_lookup_update(old(entries)@, i as int, key, value, k2);
                }
            }
            return;
        }
        i = i + 1;
    }
    entries.push((key, value));
    proof {
        assert forall|k2: u32|
            lookup(entries@, k2) == (if k2 == key {
                Some(value)
            } else {
                lookup(old(entries)@, k2)
            }) by {
            lemma_lookup_push(old(entries)@, key, value, k2);
        }
        assert(keys_unique(entries@)) by {
            assert forall|a: int, b: int| 0 <= a < b < entries@.len() implies (
            #[trigger] entries@[a]).0 != (#[trigger] entries@[b]).0 by {
                if b == entries@.len() - 1 {
                    assert(entries@[a] == old(entries)@[a]);
                }
            }
        }
    }
}

/// Replacing the value at an existing key changes that key's lookup and
/// no other.
proof fn lemma_lookup_update(entries: Seq<(u32, bool)>, i: int, key: u32, value: bool, k: u32)
    requires
        keys_unique(entries),
        0 <= i < entries.len(),
        entries[i].0 == key,
    ensures
        lookup(entries.update(i, (key, value)), k) == (if k == key {
            Some(value)
        } else {
            lookup(entries, k)
        }),
    decreases i,
{
    if i == 0 {
        if k != key {
            assert(entries.update(0, (key, value)).drop_first() =~= entries.drop_first());
        }
    } else {
        assert(entries.update(i, (key, value)).drop_first() =~= entries.drop_first().update(
            i - 1,
            (key, value),
        ));
        assert(keys_unique(entries.drop_first())) by {
            assert forall|a: int, b: int|
                0 <= a < b < entries.drop_first().len() implies (
            #[trigger] entries.drop_first()[a]).0 != (#[trigger] entries.drop_first()[b]).0 by {
                assert(entries.drop_first()[a] == entries[a + 1]);
                assert(entries.drop_first()[b] == entries[b + 1]);
            }
        }
        lemma_lookup_update(entries.drop_first(), i - 1, key, value, k);
        assert(entries[0].0 != key);
    }
}

/// Appending an entry for a fresh key changes that key's lookup and no
/// other.
proof fn lemma_lookup_push(entries: Seq<(u32, bool)>, key: u32, value: bool, k: u32)
    requires
        forall|j: int| 0 <= j < entries.len() ==> (#[trigger] entries[j]).0 != key,
    ensures
        lookup(entries.push((key, value)), k) == (if k == key {
            Some(value)
        } else {
            lookup(entries, k)
        }),
    decreases entries.len(),
{
    if entries.len() == 0 {
        assert(entries.push((key, value))[0] == (key, value));
        if k != key {
            assert(entries.push((key, value)).drop_first()
                =~= Seq::<(u32, bool)>::empty());
        }
    } else {
        assert(entries.push((key, value)).drop_first() =~= entries.drop_first().push(
            (key, value),
        ));
        lemma_lookup_push(entries.drop_first(), key, value, k);
    }
}

} // verus!
