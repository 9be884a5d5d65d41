//! The key-to-note table: the key at position `i` of the configured list plays
//! note `start + i`.

use crate::message::MAX_NOTE;
use device_query::Keycode;
use vstd::prelude::*;

verus! {

/// Why a key list was refused.
#[derive(Clone, Copy, Debug, PartialEq, Eq, Structural)]
pub enum ConfigError {
    /// The last key would play a note above 127.
    RangeExceeded,
    /// A key stands in the list twice.
    DuplicateKey,
}

/// What a table is, mathematically: the first note and the ordered keys.
pub ghost struct MappingView {
    pub start: u8,
    pub keys: Seq<Keycode>,
}

impl MappingView {
    /// The last note stays within the MIDI range.
    pub open spec fn in_range(self) -> bool {
        self.start + self.keys.len() - 1 <= MAX_NOTE
    }

    /// The table's invariant: notes within range, no key twice.
    pub open spec fn wf(self) -> bool {
        self.in_range() && self.keys.no_duplicates()
    }

    /// Position of `key` in the list, if it is there.
    pub open spec fn position(self, key: Keycode) -> Option<int> {
        if self.keys.contains(key) {
            Some(self.keys.index_of(key))
        } else {
            None
        }
    }

    /// The note that `key` plays, if it plays one.
    pub open spec fn lookup(self, key: Keycode) -> Option<u8> {
        match self.position(key) {
            Some(i) => Some((self.start + i) as u8),
            None => None,
        }
    }

    /// Whether some key plays `note`.
    pub open spec fn plays(self, note: u8) -> bool {
        self.start <= note < self.start + self.keys.len()
    }
}

/// An immutable, injective table from keys to notes.
pub struct Mapping {
    start: u8,
    keys: Vec<Keycode>,
}

impl View for Mapping {
    type V = MappingView;

    closed spec fn view(&self) -> MappingView {
        MappingView { start: self.start, keys: self.keys@ }
    }
}

/// Whether `key` is one of the first `end` keys of `keys`.
fn occurs_before(keys: &Vec<Keycode>, end: usize, key: Keycode) -> (found: bool)
    requires
        end <= keys.len(),
    ensures
        found == keys@.take(end as int).contains(key),
{
    let mut i: usize = 0;
    while i < end
        invariant
            i <= end <= keys.len(),
            forall|j: int| 0 <= j < i ==> keys@[j] != key,
        decreases end - i,
    {
        if keys[i] == key {
            assert(keys@.take(end as int)[i as int] == key);
            return true;
        }
        i += 1;
    }
    false
}

impl Mapping {
    #[verifier::type_invariant]
    spec fn inv(self) -> bool {
        self@.wf()
    }

    /// Builds the table for `keys`, the first of which plays `start`. The
    /// list is refused when its last key would pass note 127, and otherwise
    /// when a key stands in it twice.
    pub fn build(start: u8, keys: Vec<Keycode>) -> (r: Result<Mapping, ConfigError>)
        ensures
            match r {
                Ok(m) => m@ == (MappingView { start, keys: keys@ }) && m@.wf(),
                Err(ConfigError::RangeExceeded) => !(MappingView { start, keys: keys@ }).in_range(),
                Err(ConfigError::DuplicateKey) => (MappingView { start, keys: keys@ }).in_range()
                    && !keys@.no_duplicates(),
            },
    {
        let n = keys.len();
        if n > 128 || start as usize + n > 128 {
            return Err(ConfigError::RangeExceeded);
        }
        let mut i: usize = 0;
        while i < n
            invariant
                i <= n == keys.len(),
                start + n <= 128,
                keys@.take(i as int).no_duplicates(),
            decreases n - i,
        {
            if occurs_before(&keys, i, keys[i]) {
                proof {
                    let before = keys@.take(i as int);
                    let j = before.index_of(keys@[i as int]);
                    assert(0 <= j < i && before[j] == keys@[i as int]);
                    assert(keys@[j] == keys@[i as int]);
                }
                return Err(ConfigError::DuplicateKey);
            }
            proof {
                let before = keys@.take(i as int);
                let upto = keys@.take(i + 1);
                assert forall|a: int, b: int| 0 <= a < upto.len() && 0 <= b < upto.len() && a != b
                    implies upto[a] != upto[b] by {
                    if a < i && b < i {
                        assert(before[a] != before[b]);
                    } else if a < i {
                        assert(before[a] == keys@[a]);
                    } else {
                        assert(before[b] == keys@[b]);
                    }
                }
            }
            i += 1;
        }
        assert(keys@.take(n as int) =~= keys@);
        Ok(Mapping { start, keys })
    }

    /// The note of the first key.
    pub fn start(&self) -> (s: u8)
        ensures
            s == self@.start,
    {
        self.start
    }

    /// How many keys the table holds.
    pub fn len(&self) -> (n: usize)
        ensures
            n == self@.keys.len(),
            self@.wf(),
    {
        proof {
            use_type_invariant(self);
        }
        self.keys.len()
    }

    /// Position of `key` in the configured list.
    pub fn position(&self, key: Keycode) -> (r: Option<usize>)
        ensures
            self@.wf(),
            match r {
                Some(i) => self@.position(key) == Some(i as int) && i < self@.keys.len(),
                None => self@.position(key).is_none(),
            },
    {
        proof {
            use_type_invariant(self);
        }
        let mut i: usize = 0;
        while i < self.keys.len()
            invariant
                i <= self.keys.len(),
                self@.keys == self.keys@,
                self@.wf(),
                forall|j: int| 0 <= j < i ==> self.keys@[j] != key,
            decreases self.keys.len() - i,
        {
            if self.keys[i] == key {
                proof {
                    lemma_position_at(self@, i as int);
                }
                return Some(i);
            }
            i += 1;
        }
        None
    }

    /// The note that `key` plays, or `None` for a key outside the table.
    pub fn lookup(&self, key: Keycode) -> (r: Option<u8>)
        ensures
            r == self@.lookup(key),
            self@.wf(),
    {
        match self.position(key) {
            Some(i) => {
                assert(self.start + i <= MAX_NOTE);
                Some(self.start + i as u8)
            },
            None => None,
        }
    }
}

/// In a well-formed table the key at position `i` is found at `i`.
pub proof fn lemma_position_at(m: MappingView, i: int)
    requires
        m.wf(),
        0 <= i < m.keys.len(),
    ensures
        m.position(m.keys[i]) == Some(i),
{
    let key = m.keys[i];
    assert(m.keys.contains(key));
    let j = m.keys.index_of(key);
    assert(0 <= j < m.keys.len() && m.keys[j] == key);
}

/// The key at position `i` plays note `start + i`, which is a MIDI note.
pub proof fn lemma_lookup_at(m: MappingView, i: int)
    requires
        m.wf(),
        0 <= i < m.keys.len(),
    ensures
        m.start + i <= MAX_NOTE,
        m.lookup(m.keys[i]) == Some((m.start + i) as u8),
{
    lemma_position_at(m, i);
}

/// Two keys that play the same note are the same key.
pub proof fn lemma_lookup_injective(m: MappingView, a: Keycode, b: Keycode)
    requires
        m.wf(),
        m.lookup(a).is_some(),
        m.lookup(a) == m.lookup(b),
    ensures
        a == b,
{
    let i = m.keys.index_of(a);
    let j = m.keys.index_of(b);
    assert(m.keys[i] == a && m.keys[j] == b);
    assert(i == j);
}

/// A note is played by a key exactly when it lies in the table's range, and
/// then by the key at its offset from `start`.
pub proof fn lemma_lookup_range(m: MappingView, key: Keycode)
    requires
        m.wf(),
    ensures
        match m.lookup(key) {
            Some(note) => m.plays(note) && note <= MAX_NOTE && m.keys[note - m.start] == key,
            None => !m.keys.contains(key),
        },
{
    if m.keys.contains(key) {
        let i = m.keys.index_of(key);
        assert(0 <= i < m.keys.len() && m.keys[i] == key);
    }
}

} // verus!
