//! A log of recent keystrokes and the actions they triggered.
//!
//! This is a fixed-capacity ring of entries for operator-facing display: keys
//! accumulate until an action completes, a run of identical keystroke
//! sequences collapses into one entry with a count, and the oldest entries are
//! dropped once the capacity is exceeded.  Keystrokes are stored as plain key
//! codes; turning a key into a code or a printable string, and painting the
//! log on a terminal, belong to the display layer around this crate.

use vstd::prelude::*;

verus! {

/// A category grouping similar actions, used by the display layer to pick a
/// colour.
#[derive(Debug, Copy, Clone, Eq, PartialEq, Structural, Hash)]
pub enum Category {
    /// An action that moves the cursor.
    Move,
    /// An undo or a redo.
    History,
    /// An action that inserts extra nodes into the tree.
    Insert,
    /// An action that replaces some nodes in the tree.
    Replace,
    /// An action that causes nodes to be deleted from the tree.
    Delete,
    /// The action of quitting the editor.
    Quit,
    /// An action that reads or writes a file.
    IO,
    /// Keystrokes that did not correspond to a well-defined action.
    Undefined,
}

/// One entry in the log: a run of `count` identical keystroke sequences and
/// the action they meant.
pub struct Entry {
    pub count: usize,
    pub keystrokes: Vec<u64>,
    pub description: String,
    pub category: Category,
}

/// Mathematical model of one log entry.
pub struct LogEntryModel {
    pub count: usize,
    pub keystrokes: Seq<u64>,
    pub description: Seq<char>,
    pub category: Category,
}

impl View for Entry {
    type V = LogEntryModel;

    open spec fn view(&self) -> LogEntryModel {
        LogEntryModel {
            count: self.count,
            keystrokes: self.keystrokes@,
            description: self.description@,
            category: self.category,
        }
    }
}

/// Mathematical model of the whole log.
pub struct LogModel {
    pub entries: Seq<LogEntryModel>,
    pub max_entries: usize,
    pub unlogged: Seq<u64>,
}

/// A log of which keystrokes have been executed recently.
pub struct KeyStrokeLog {
    pub keystrokes: Vec<Entry>,
    pub max_entries: usize,
    pub unlogged_keystrokes: Vec<u64>,
}

impl View for KeyStrokeLog {
    type V = LogModel;

    open spec fn view(&self) -> LogModel {
        LogModel {
            entries: self.keystrokes@.map(|i: int, e: Entry| e@),
            max_entries: self.max_entries,
            unlogged: self.unlogged_keystrokes@,
        }
    }
}

/// The last `max` entries of `es`: what survives the capacity limit.
pub open spec fn trim(es: Seq<LogEntryModel>, max: usize) -> Seq<LogEntryModel> {
    if es.len() <= max {
        es
    } else {
        es.skip(es.len() - max)
    }
}

/// A count one higher, stopping at the machine maximum.
pub open spec fn bump(c: usize) -> usize {
    if c < usize::MAX {
        (c + 1) as usize
    } else {
        c
    }
}

/// The log after recording an action: if the pending keystrokes equal the last
/// entry's, that entry's count rises by one; otherwise a new entry is pushed
/// and the capacity enforced.  Either way the pending keystrokes are cleared.
pub open spec fn log_entry_model(m: LogModel, description: Seq<char>, category: Category) -> LogModel {
    if m.entries.len() > 0 && m.entries.last().keystrokes == m.unlogged {
        let last = m.entries.last();
        let updated = LogEntryModel {
            count: bump(last.count),
            keystrokes: last.keystrokes,
            description: last.description,
            category: last.category,
        };
        LogModel {
            entries: m.entries.update(m.entries.len() - 1, updated),
            max_entries: m.max_entries,
            unlogged: Seq::empty(),
        }
    } else {
        let entry = LogEntryModel { count: 1, keystrokes: m.unlogged, description, category };
        LogModel {
            entries: trim(m.entries.push(entry), m.max_entries),
            max_entries: m.max_entries,
            unlogged: Seq::empty(),
        }
    }
}

/// The number of decimal digits of `n`.
pub open spec fn spec_decimal_len(n: nat) -> nat
    decreases n,
{
    if n < 10 {
        1
    } else {
        1 + spec_decimal_len(n / 10)
    }
}

/// A number of at least two has strictly fewer digits than its own value.
proof fn lemma_decimal_len_le(n: nat)
    requires
        n >= 2,
    ensures
        spec_decimal_len(n) < n,
    decreases n,
{
    if n >= 10 {
        if n / 10 >= 2 {
            lemma_decimal_len_le(n / 10);
        } else {
            assert(spec_decimal_len(n / 10) == 1);
        }
    }
}

/// The width the count cell of an entry asks for: empty for a single
/// occurrence, otherwise the digits of the count and the trailing marker.
pub open spec fn count_cell_width(e: LogEntryModel) -> nat {
    if e.count == 1 {
        0
    } else {
        spec_decimal_len(e.count as nat) + 1
    }
}

/// The widest count cell over all entries.
pub open spec fn max_count_width(es: Seq<LogEntryModel>) -> nat
    decreases es.len(),
{
    if es.len() == 0 {
        0
    } else {
        let rest = max_count_width(es.drop_last());
        let c = count_cell_width(es.last());
        if c > rest {
            c
        } else {
            rest
        }
    }
}

/// The largest of a sequence of lengths.
pub open spec fn max_len(ls: Seq<usize>) -> nat
    decreases ls.len(),
{
    if ls.len() == 0 {
        0
    } else {
        let rest = max_len(ls.drop_last());
        if ls.last() > rest {
            ls.last() as nat
        } else {
            rest
        }
    }
}

/// The number of decimal digits of `n`.
fn decimal_len(n: usize) -> (w: usize)
    ensures
        w == spec_decimal_len(n as nat),
{
    let mut m = n;
    let mut w: usize = 1;
    while m >= 10
        invariant
            w >= 1,
            m <= n,
            spec_decimal_len(n as nat) == spec_decimal_len(m as nat) + w - 1,
        decreases m,
    {
        proof {
            reveal_with_fuel(spec_decimal_len, 2);
            lemma_decimal_len_le(n as nat);
            assert(spec_decimal_len(m as nat) >= 2);
        }
        m = m / 10;
        w = w + 1;
    }
    w
}

/// Two key-code sequences are the same.
fn keys_eq(a: &Vec<u64>, b: &Vec<u64>) -> (r: bool)
    ensures
        r == (a@ == b@),
{
    if a.len() != b.len() {
        proof {
            assert(a@.len() != b@.len());
        }
        return false;
    }
    let mut i: usize = 0;
    while i < a.len()
        invariant
            i <= a@.len(),
            a@.len() == b@.len(),
            forall|j: int| 0 <= j < i ==> a@[j] == b@[j],
        decreases a@.len() - i,
    {
        if a[i] != b[i] {
            return false;
        }
        i += 1;
    }
    proof {
        assert(a@ =~= b@);
    }
    true
}

impl KeyStrokeLog {
    /// Create a new, empty keystroke log.
    pub fn new(max_entries: usize) -> (log: KeyStrokeLog)
        ensures
            log@.entries == Seq::<LogEntryModel>::empty(),
            log@.max_entries == max_entries,
            log@.unlogged == Seq::<u64>::empty(),
    {
        let log = KeyStrokeLog {
            keystrokes: Vec::new(),
            max_entries,
            unlogged_keystrokes: Vec::new(),
        };
        proof {
            assert(log@.entries =~= Seq::<LogEntryModel>::empty());
        }
        log
    }

    /// Set and enforce the entry limit: only the last `max_entries` entries
    /// survive.
    pub fn set_max_entries(&mut self, max_entries: usize)
        ensures
            final(self)@.entries == trim(old(self)@.entries, max_entries),
            final(self)@.max_entries == max_entries,
            final(self)@.unlogged == old(self)@.unlogged,
    {
        self.max_entries = max_entries;
        self.enforce_entry_limit();
    }

    /// Repeatedly drop the oldest entry until the limit holds.
    fn enforce_entry_limit(&mut self)
        ensures
            final(self)@.entries == trim(old(self)@.entries, old(self).max_entries),
            final(self)@.max_entries == old(self)@.max_entries,
            final(self)@.unlogged == old(self)@.unlogged,
    {
        let ghost es0 = self@.entries;
        proof {
            assert(self@.entries =~= es0.skip(0));
        }
        while self.keystrokes.len() > self.max_entries
            invariant
                self.max_entries == old(self).max_entries,
                self.unlogged_keystrokes@ == old(self).unlogged_keystrokes@,
                self@.entries.len() <= es0.len(),
                self@.entries =~= es0.skip(es0.len() - self@.entries.len()),
                self@.entries.len() >= self.max_entries || self@.entries.len() == es0.len(),
            decreases self@.entries.len(),
        {
            let ghost prevm = self@.entries;
            let ghost ks0 = self.keystrokes@;
            let ghost d0 = es0.len() - prevm.len();
            self.keystrokes.remove(0);
            proof {
                assert forall|k: int| 0 <= k < self@.entries.len() implies self@.entries[k]
                    == prevm[k + 1] by {
                    assert(self.keystrokes@[k] == ks0.remove(0)[k]);
                    assert(ks0.remove(0)[k] == ks0[k + 1]);
                }
                assert forall|k: int| 0 <= k < self@.entries.len() implies self@.entries[k]
                    == es0.skip(d0 + 1)[k] by {
                    assert(self@.entries[k] == prevm[k + 1]);
                    assert(prevm[k + 1] == es0.skip(d0 as int)[k + 1]);
                }
                assert(self@.entries =~= es0.skip(es0.len() - self@.entries.len()));
            }
        }
        proof {
            assert(self@.entries =~= trim(es0, self.max_entries));
        }
    }

    /// Record a key that will be part of the next log entry.
    pub fn push_key(&mut self, key: u64)
        ensures
            final(self)@.entries == old(self)@.entries,
            final(self)@.max_entries == old(self)@.max_entries,
            final(self)@.unlogged == old(self)@.unlogged.push(key),
    {
        self.unlogged_keystrokes.push(key);
        proof {
            assert(self@.entries =~= old(self)@.entries);
        }
    }

    /// Record that the keys pushed since the last entry completed the given
    /// action.
    pub fn log_entry(&mut self, description: String, category: Category)
        ensures
            final(self)@ == log_entry_model(old(self)@, description@, category),
    {
        let ghost m0 = self@;
        let len = self.keystrokes.len();
        let same = if len == 0 {
            false
        } else {
            keys_eq(&self.unlogged_keystrokes, &self.keystrokes[len - 1].keystrokes)
        };
        if same {
            let c = self.keystrokes[len - 1].count;
            let c2 = if c < usize::MAX {
                c + 1
            } else {
                c
            };
            self.keystrokes[len - 1].count = c2;
            self.unlogged_keystrokes = Vec::new();
            proof {
                assert(self@.entries =~= log_entry_model(m0, description@, category).entries);
                assert(self@.unlogged =~= Seq::<u64>::empty());
            }
        } else {
            let mut ks: Vec<u64> = Vec::new();
            core::mem::swap(&mut ks, &mut self.unlogged_keystrokes);
            self.keystrokes.push(Entry { count: 1, keystrokes: ks, description, category });
            proof {
                assert(self@.entries =~= m0.entries.push(
                    LogEntryModel {
                        count: 1,
                        keystrokes: m0.unlogged,
                        description: description@,
                        category,
                    },
                ));
            }
            self.enforce_entry_limit();
            proof {
                assert(self@.unlogged =~= Seq::<u64>::empty());
            }
        }
    }

    /// How many entries the log holds.
    pub fn len(&self) -> (n: usize)
        ensures
            n == self@.entries.len(),
    {
        self.keystrokes.len()
    }

    /// Read access to one entry.
    pub fn entry(&self, i: usize) -> (e: &Entry)
        requires
            i < self@.entries.len(),
        ensures
            e@ == self@.entries[i as int],
    {
        &self.keystrokes[i]
    }

    /// The width of the count column: room for the widest `<count>x` cell,
    /// and at least two characters.
    pub fn count_col_width(&self) -> (w: usize)
        ensures
            w as nat == if max_count_width(self@.entries) > 2 {
                max_count_width(self@.entries)
            } else {
                2nat
            },
    {
        let mut best: usize = 0;
        let mut i: usize = 0;
        proof {
            assert(self@.entries.take(0) =~= Seq::<LogEntryModel>::empty());
        }
        while i < self.keystrokes.len()
            invariant
                i <= self@.entries.len(),
                self@.entries.len() == self.keystrokes@.len(),
                best as nat == max_count_width(self@.entries.take(i as int)),
            decreases self@.entries.len() - i,
        {
            let c = self.keystrokes[i].count;
            let cell: usize = if c == 1 {
                0
            } else {
                proof {
                    if c >= 2 {
                        lemma_decimal_len_le(c as nat);
                    }
                    assert(spec_decimal_len(0nat) == 1);
                }
                let d = decimal_len(c);
                d + 1
            };
            if cell > best {
                best = cell;
            }
            proof {
                assert(self@.entries.take(i + 1).drop_last() =~= self@.entries.take(i as int));
                assert(self@.entries.take(i + 1).last() == self@.entries[i as int]);
            }
            i += 1;
        }
        proof {
            assert(self@.entries.take(self@.entries.len() as int) =~= self@.entries);
        }
        if best > 2 {
            best
        } else {
            2
        }
    }

    /// The width of the keystroke column, given the printed length of each
    /// entry's keystrokes: the widest one, and at least two characters.
    pub fn keystroke_col_width(lens: &Vec<usize>) -> (w: usize)
        ensures
            w as nat == if max_len(lens@) > 2 {
                max_len(lens@)
            } else {
                2nat
            },
    {
        let mut best: usize = 0;
        let mut i: usize = 0;
        proof {
            assert(lens@.take(0) =~= Seq::<usize>::empty());
        }
        while i < lens.len()
            invariant
                i <= lens@.len(),
                best as nat == max_len(lens@.take(i as int)),
            decreases lens@.len() - i,
        {
            let c = lens[i];
            if c > best {
                best = c;
            }
            proof {
                assert(lens@.take(i + 1).drop_last() =~= lens@.take(i as int));
                assert(lens@.take(i + 1).last() == lens@[i as int]);
            }
            i += 1;
        }
        proof {
            assert(lens@.take(lens@.len() as int) =~= lens@);
        }
        if best > 2 {
            best
        } else {
            2
        }
    }
}

} // verus!
