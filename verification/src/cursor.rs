//! The cursor interface every storage backend implements so an executor can
//! traverse, seek and mutate rows without knowing the backend, and a
//! verified in-memory table backend.
//!
//! Because backing storage may be non-blocking, every traversal or mutation
//! returns either a finished result or a pending-I/O signal; on the signal
//! the cursor's observable state is unchanged, and the caller re-issues the
//! identical call after waiting for completion.
use vstd::prelude::*;
use crate::value::OwnedRecord;
use crate::value::OwnedValue;
use crate::value::ValueView;
use crate::value::values_view;
use crate::LimboError;

verus! {

/// A finished result, or a signal that the operation awaits I/O and must be
/// re-issued after completion.
#[derive(PartialEq, Debug)]
pub enum CursorResult<T> {
    Done(T),
    IO,
}

/// The comparison a seek uses against the target key.
#[derive(Clone, Copy, PartialEq, Eq, Structural, Debug)]
pub enum SeekOp {
    EQ,
    GE,
    GT,
}

/// A seek target: a table row identifier, or a composite index key.
#[derive(Clone, PartialEq, Debug)]
pub enum SeekKey<'a> {
    TableRowId(u64),
    IndexKey(&'a OwnedRecord),
}

/// Where a cursor stands: nowhere yet, on the row at an index of the key
/// order, or past the last row.
pub enum CursorPosition {
    Unpositioned,
    At(int),
    OffEnd,
}

/// The rows a seek with `op` can land on, judged against one key.
pub open spec fn seek_matches(op: SeekOp, key: u64, target: u64) -> bool {
    match op {
        SeekOp::EQ => key == target,
        SeekOp::GE => key >= target,
        SeekOp::GT => key > target,
    }
}

/// The interface a storage backend offers for row traversal and mutation.
/// Its model is the sequence of keys in key order, the row stored under
/// each, the cursor's position, and the null-flag side channel.
pub trait Cursor where Self: Sized {
    /// The keys in the tree, in traversal order.
    spec fn keys(&self) -> Seq<u64>;

    /// The model of the row under each key, index-aligned with `keys`.
    spec fn rows(&self) -> Seq<Seq<ValueView>>;

    /// Where the cursor stands.
    spec fn position(&self) -> CursorPosition;

    /// The null-flag side channel.
    spec fn null_flag_model(&self) -> bool;

    /// The backend's structural invariant.
    spec fn inv(&self) -> bool;

    /// The keys are strictly increasing — the traversal order is the key
    /// order, with no duplicates — and each fits a signed row identifier,
    /// the format's row address space.
    proof fn keys_sorted(&self)
        requires
            self.inv(),
        ensures
            self.rows().len() == self.keys().len(),
            forall|i: int, j: int|
                0 <= i < j < self.keys().len() ==> self.keys()[i] < self.keys()[j],
            forall|i: int| 0 <= i < self.keys().len() ==> #[trigger] self.keys()[i] <= i64::MAX as u64,
    ;

    /// Which keys this backend stores: a table tree takes nonnegative
    /// integer row identifiers, an index tree composite keys.
    spec fn accepts_key(&self, key: ValueView) -> bool;

    /// Whether the tree holds no rows.
    fn is_empty(&self) -> (r: bool)
        requires
            self.inv(),
        ensures
            r == (self.keys().len() == 0),
    ;

    /// The root page identifier of the tree this cursor traverses.
    fn root_page(&self) -> usize;

    /// Positions at the first row; off the end when the tree is empty.
    fn rewind(&mut self) -> (r: Result<CursorResult<()>, LimboError>)
        requires
            old(self).inv(),
        ensures
            final(self).inv(),
            final(self).keys() == old(self).keys(),
            final(self).rows() == old(self).rows(),
            final(self).null_flag_model() == old(self).null_flag_model(),
            r matches Ok(CursorResult::Done(_)) ==> final(self).position() == (
            if old(self).keys().len() == 0 {
                CursorPosition::OffEnd
            } else {
                CursorPosition::At(0)
            }),
            !(r matches Ok(CursorResult::Done(_))) ==> final(self).position() == old(
                self,
            ).position(),
    ;

    /// Positions at the last row; off the end when the tree is empty.
    fn last(&mut self) -> (r: Result<CursorResult<()>, LimboError>)
        requires
            old(self).inv(),
        ensures
            final(self).inv(),
            final(self).keys() == old(self).keys(),
            final(self).rows() == old(self).rows(),
            final(self).null_flag_model() == old(self).null_flag_model(),
            r matches Ok(CursorResult::Done(_)) ==> final(self).position() == (
            if old(self).keys().len() == 0 {
                CursorPosition::OffEnd
            } else {
                CursorPosition::At(old(self).keys().len() - 1)
            }),
            !(r matches Ok(CursorResult::Done(_))) ==> final(self).position() == old(
                self,
            ).position(),
    ;

    /// Advances to the next row in key order, or off the end after the
    /// last; invoking it anywhere but on a row is a contract violation.
    fn next(&mut self) -> (r: Result<CursorResult<()>, LimboError>)
        requires
            old(self).inv(),
            old(self).position() is At,
        ensures
            final(self).inv(),
            final(self).keys() == old(self).keys(),
            final(self).rows() == old(self).rows(),
            final(self).null_flag_model() == old(self).null_flag_model(),
            r matches Ok(CursorResult::Done(_)) ==> (old(self).position() matches CursorPosition::At(
                i,
            ) && final(self).position() == (if i + 1 < old(self).keys().len() {
                CursorPosition::At(i + 1)
            } else {
                CursorPosition::OffEnd
            })),
            !(r matches Ok(CursorResult::Done(_))) ==> final(self).position() == old(
                self,
            ).position(),
    ;

    /// Steps back to the previous row in key order, or to no position
    /// before the first; invoking it anywhere but on a row is a contract
    /// violation.
    fn prev(&mut self) -> (r: Result<CursorResult<()>, LimboError>)
        requires
            old(self).inv(),
            old(self).position() is At,
        ensures
            final(self).inv(),
            final(self).keys() == old(self).keys(),
            final(self).rows() == old(self).rows(),
            final(self).null_flag_model() == old(self).null_flag_model(),
            r matches Ok(CursorResult::Done(_)) ==> (old(self).position() matches CursorPosition::At(
                i,
            ) && final(self).position() == (if i > 0 {
                CursorPosition::At(i - 1)
            } else {
                CursorPosition::Unpositioned
            })),
            !(r matches Ok(CursorResult::Done(_))) ==> final(self).position() == old(
                self,
            ).position(),
    ;

    /// Blocks until the pending I/O of the last operation has completed,
    /// after which the identical call is re-issued.
    fn wait_for_completion(&mut self) -> (r: Result<(), LimboError>)
        requires
            old(self).inv(),
        ensures
            final(self).inv(),
            final(self).keys() == old(self).keys(),
            final(self).rows() == old(self).rows(),
            final(self).position() == old(self).position(),
            final(self).null_flag_model() == old(self).null_flag_model(),
    ;

    /// The row identifier under the cursor, or nothing off a row.
    fn rowid(&self) -> (r: Result<Option<u64>, LimboError>)
        requires
            self.inv(),
        ensures
            r matches Ok(o) ==> o == (match self.position() {
                CursorPosition::At(i) => if 0 <= i < self.keys().len() {
                    Some(self.keys()[i])
                } else {
                    None
                },
                _ => None::<u64>,
            }),
    ;

    /// Positions by key: EQ at an exact match, GE at the first key at
    /// least the target, GT at the first key above it. Returns whether a
    /// matching row was found; when none is, the cursor is off the end.
    /// The contract pins row-identifier seeks; index-key seeks are the
    /// index backends' own.
    fn seek(&mut self, key: SeekKey<'_>, op: SeekOp) -> (r: Result<
        CursorResult<bool>,
        LimboError,
    >)
        requires
            old(self).inv(),
        ensures
            final(self).inv(),
            final(self).keys() == old(self).keys(),
            final(self).rows() == old(self).rows(),
            final(self).null_flag_model() == old(self).null_flag_model(),
            !(r matches Ok(CursorResult::Done(_))) ==> final(self).position() == old(
                self,
            ).position(),
            key matches SeekKey::TableRowId(target) ==> (r matches Ok(
                CursorResult::Done(found),
            ) ==> {
                let ks = old(self).keys();
                if found {
                    (final(self).position() matches CursorPosition::At(i) && 0 <= i < ks.len()
                        && seek_matches(op, ks[i], target) && (forall|j: int|
                        0 <= j < i ==> !seek_matches(op, ks[j], target)))
                } else {
                    final(self).position() is OffEnd && (forall|j: int|
                        0 <= j < ks.len() ==> !seek_matches(op, ks[j], target))
                }
            }),
    ;

    /// Positions at the row with the greatest key, like `last`.
    fn seek_to_last(&mut self) -> (r: Result<CursorResult<()>, LimboError>)
        requires
            old(self).inv(),
        ensures
            final(self).inv(),
            final(self).keys() == old(self).keys(),
            final(self).rows() == old(self).rows(),
            final(self).null_flag_model() == old(self).null_flag_model(),
            r matches Ok(CursorResult::Done(_)) ==> final(self).position() == (
            if old(self).keys().len() == 0 {
                CursorPosition::OffEnd
            } else {
                CursorPosition::At(old(self).keys().len() - 1)
            }),
            !(r matches Ok(CursorResult::Done(_))) ==> final(self).position() == old(
                self,
            ).position(),
    ;

    /// The row under the cursor, decoded, or nothing off a row. The view is
    /// valid until the next position-changing call.
    fn record(&self) -> (r: Result<Option<OwnedRecord>, LimboError>)
        requires
            self.inv(),
        ensures
            r matches Ok(o) ==> (match self.position() {
                CursorPosition::At(i) => 0 <= i < self.rows().len() && (o matches Some(rec)
                    && rec@ == self.rows()[i]),
                _ => o is None,
            }),
    ;

    /// Writes a row under an integer key, replacing any row already there.
    /// `moved_before` hints that the cursor already sits at the right leaf;
    /// a backend may ignore it, and a stale hint must never corrupt the
    /// tree.
    fn insert(&mut self, key: &OwnedValue, record: &OwnedRecord, moved_before: bool) -> (r: Result<
        CursorResult<()>,
        LimboError,
    >)
        requires
            old(self).inv(),
            old(self).position() is At || old(self).position() is OffEnd || old(self).position()
                is Unpositioned,
            old(self).accepts_key(key@),
        ensures
            final(self).inv(),
            final(self).null_flag_model() == old(self).null_flag_model(),
            key@ matches ValueView::Integer(k) ==> (0 <= k <= i64::MAX ==> (r matches Ok(
                CursorResult::Done(_),
            ) ==> {
                let ks = old(self).keys();
                let rs = old(self).rows();
                if ks.contains(k as u64) {
                    exists|i: int|
                        0 <= i < ks.len() && ks[i] == k as u64 && final(self).keys() == ks
                            && final(self).rows() == rs.update(i, record@)
                } else {
                    exists|i: int|
                        0 <= i <= ks.len() && (forall|j: int| 0 <= j < i ==> ks[j] < k as u64) && (
                        forall|j: int| i <= j < ks.len() ==> ks[j] > k as u64) && final(self).keys()
                            == ks.insert(i, k as u64) && final(self).rows() == rs.insert(
                            i,
                            record@,
                        )
                }
            })),
            !(r matches Ok(CursorResult::Done(_))) ==> (final(self).keys() == old(self).keys()
                && final(self).rows() == old(self).rows() && final(self).position() == old(
                self,
            ).position()),
    ;

    /// Removes the row under the cursor, which must stand on a row.
    fn delete(&mut self) -> (r: Result<CursorResult<()>, LimboError>)
        requires
            old(self).inv(),
            old(self).position() is At,
        ensures
            final(self).inv(),
            final(self).null_flag_model() == old(self).null_flag_model(),
            old(self).position() matches CursorPosition::At(i) ==> (r matches Ok(
                CursorResult::Done(_),
            ) ==> (0 <= i < old(self).keys().len() && final(self).keys() == old(
                self,
            ).keys().remove(i) && final(self).rows() == old(self).rows().remove(i))),
            !(r matches Ok(CursorResult::Done(_))) ==> (final(self).keys() == old(self).keys()
                && final(self).rows() == old(self).rows() && final(self).position() == old(
                self,
            ).position()),
    ;

    /// Whether a row with the given integer key exists; the table is
    /// unchanged.
    fn key_exists(&mut self, key: &OwnedValue) -> (r: Result<CursorResult<bool>, LimboError>)
        requires
            old(self).inv(),
            old(self).accepts_key(key@),
        ensures
            final(self).inv(),
            final(self).keys() == old(self).keys(),
            final(self).rows() == old(self).rows(),
            final(self).position() == old(self).position(),
            final(self).null_flag_model() == old(self).null_flag_model(),
            key@ matches ValueView::Integer(k) ==> (0 <= k ==> (r matches Ok(
                CursorResult::Done(found),
            ) ==> found == old(self).keys().contains(k as u64))),
    ;

    /// Marks whether the next inserted key is treated as SQL NULL for
    /// uniqueness; orthogonal to position.
    fn set_null_flag(&mut self, flag: bool)
        requires
            old(self).inv(),
        ensures
            final(self).inv(),
            final(self).keys() == old(self).keys(),
            final(self).rows() == old(self).rows(),
            final(self).position() == old(self).position(),
            final(self).null_flag_model() == flag,
    ;

    /// Reads the null-flag side channel.
    fn get_null_flag(&self) -> (r: bool)
        requires
            self.inv(),
        ensures
            r == self.null_flag_model(),
    ;

    /// Allocates a new empty tree and returns its root identifier; the
    /// tree this cursor traverses is untouched.
    fn btree_create(&mut self, flags: usize) -> (r: u32)
        requires
            old(self).inv(),
        ensures
            final(self).inv(),
            final(self).keys() == old(self).keys(),
            final(self).rows() == old(self).rows(),
            final(self).position() == old(self).position(),
            final(self).null_flag_model() == old(self).null_flag_model(),
    ;
}

/// After a row-identifier seek with GE lands on a row, every row from that
/// position on holds a key at least the target, and each step to the next
/// position holds a strictly greater key under the value collation itself
/// — the order index traversal must preserve — until the cursor runs off
/// the end.
pub proof fn lemma_seek_ge_scan_increases<C: Cursor>(c: &C, target: u64, p: int, j: int)
    requires
        c.inv(),
        0 <= p <= j < c.keys().len(),
        seek_matches(SeekOp::GE, c.keys()[p], target),
    ensures
        c.keys()[j] >= target,
        j + 1 < c.keys().len() ==> crate::order::spec_cmp_values(
            ValueView::Integer(c.keys()[j] as int),
            ValueView::Integer(c.keys()[j + 1] as int),
        ) == Some(core::cmp::Ordering::Less),
{
    c.keys_sorted();
}

/// Where an in-memory cursor stands.
#[derive(Debug, Clone, Copy, PartialEq, Eq, Structural)]
pub enum MemPosition {
    Unpositioned,
    At(usize),
    OffEnd,
}

/// An in-memory table backend: one row per integer key, held sorted by key
/// in a vector. It is the reference implementation of the cursor contract;
/// none of its operations ever awaits I/O.
#[derive(Debug)]
pub struct MemCursor {
    pub entries: Vec<(u64, OwnedRecord)>,
    pub state: MemPosition,
    pub null_flag: bool,
    pub root: usize,
}

impl MemCursor {
    /// An empty table with the given root identifier; root page numbers of
    /// the format fit thirty-two bits.
    pub fn new(root: usize) -> (r: Self)
        requires
            root <= u32::MAX as usize,
        ensures
            r.inv(),
            r.keys().len() == 0,
            r.position() is Unpositioned,
            !r.null_flag_model(),
    {
        let r = MemCursor {
            entries: Vec::new(),
            state: MemPosition::Unpositioned,
            null_flag: false,
            root,
        };
        proof {
            assert(r.keys() =~= Seq::<u64>::empty());
        }
        r
    }
}

impl Cursor for MemCursor {
    open spec fn keys(&self) -> Seq<u64> {
        Seq::new(self.entries@.len(), |i: int| self.entries@[i].0)
    }

    open spec fn rows(&self) -> Seq<Seq<ValueView>> {
        Seq::new(self.entries@.len(), |i: int| values_view(self.entries@[i].1.values@))
    }

    open spec fn position(&self) -> CursorPosition {
        match self.state {
            MemPosition::Unpositioned => CursorPosition::Unpositioned,
            MemPosition::At(i) => CursorPosition::At(i as int),
            MemPosition::OffEnd => CursorPosition::OffEnd,
        }
    }

    open spec fn null_flag_model(&self) -> bool {
        self.null_flag
    }

    open spec fn inv(&self) -> bool {
        &&& forall|i: int, j: int|
            0 <= i < j < self.entries@.len() ==> self.entries@[i].0 < self.entries@[j].0
        &&& forall|i: int|
            0 <= i < self.entries@.len() ==> #[trigger] self.entries@[i].0 <= i64::MAX as u64
        &&& (self.state matches MemPosition::At(i) ==> i < self.entries@.len())
        &&& self.root <= u32::MAX as usize
    }

    proof fn keys_sorted(&self) {
    }

    open spec fn accepts_key(&self, key: ValueView) -> bool {
        key matches ValueView::Integer(k) && 0 <= k <= i64::MAX
    }

    fn is_empty(&self) -> (r: bool) {
        self.entries.len() == 0
    }

    fn root_page(&self) -> (r: usize)
        ensures
            r == self.root,
    {
        self.root
    }

    fn rewind(&mut self) -> (r: Result<CursorResult<()>, LimboError>)
        ensures
            r matches Ok(CursorResult::Done(_)),
    {
        if self.entries.len() == 0 {
            self.state = MemPosition::OffEnd;
        } else {
            self.state = MemPosition::At(0);
        }
        Ok(CursorResult::Done(()))
    }

    fn last(&mut self) -> (r: Result<CursorResult<()>, LimboError>)
        ensures
            r matches Ok(CursorResult::Done(_)),
    {
        let n = self.entries.len();
        if n == 0 {
            self.state = MemPosition::OffEnd;
        } else {
            self.state = MemPosition::At(n - 1);
        }
        Ok(CursorResult::Done(()))
    }

    fn next(&mut self) -> (r: Result<CursorResult<()>, LimboError>)
        ensures
            r matches Ok(CursorResult::Done(_)),
    {
        let i = match self.state {
            MemPosition::At(i) => i,
            _ => 0,
        };
        let n = self.entries.len();
        if i + 1 < n {
            self.state = MemPosition::At(i + 1);
        } else {
            self.state = MemPosition::OffEnd;
        }
        Ok(CursorResult::Done(()))
    }

    fn prev(&mut self) -> (r: Result<CursorResult<()>, LimboError>)
        ensures
            r matches Ok(CursorResult::Done(_)),
    {
        let i = match self.state {
            MemPosition::At(i) => i,
            _ => 0,
        };
        if i > 0 {
            self.state = MemPosition::At(i - 1);
        } else {
            self.state = MemPosition::Unpositioned;
        }
        Ok(CursorResult::Done(()))
    }

    fn wait_for_completion(&mut self) -> (r: Result<(), LimboError>)
        ensures
            r is Ok,
    {
        Ok(())
    }

    fn rowid(&self) -> (r: Result<Option<u64>, LimboError>)
        ensures
            r is Ok,
    {
        match self.state {
            MemPosition::At(i) => {
                proof {
                    assert(self.keys()[i as int] == self.entries@[i as int].0);
                }
                Ok(Some(self.entries[i].0))
            },
            _ => Ok(None),
        }
    }

    fn seek(&mut self, key: SeekKey<'_>, op: SeekOp) -> (r: Result<
        CursorResult<bool>,
        LimboError,
    >)
        ensures
            key matches SeekKey::TableRowId(t0) ==> r matches Ok(CursorResult::Done(_)),
            key matches SeekKey::IndexKey(k0) ==> r is Err,
    {
        let target = match key {
            SeekKey::TableRowId(k) => k,
            SeekKey::IndexKey(_) => {
                // a table backend takes row identifiers only; reject a
                // composite key loudly rather than answer wrongly
                return Err(LimboError::NotSupported);
            },
        };
        proof {
            assert(key matches SeekKey::TableRowId(t0) ==> t0 == target);
        }
        let n = self.entries.len();
        let mut i: usize = 0;
        while i < n
            invariant
                0 <= i <= n,
                self.entries@ == old(self).entries@,
                self.null_flag == old(self).null_flag,
                self.root == old(self).root,
                old(self).inv(),
                n == self.entries@.len(),
                key is TableRowId,
                key matches SeekKey::TableRowId(t0) ==> t0 == target,
                forall|j: int| 0 <= j < i ==> !seek_matches(op, old(self).keys()[j], target),
            decreases n - i,
        {
            let k = self.entries[i].0;
            let hit = match op {
                SeekOp::EQ => k == target,
                SeekOp::GE => k >= target,
                SeekOp::GT => k > target,
            };
            proof {
                assert(old(self).keys()[i as int] == self.entries@[i as int].0);
            }
            if hit {
                self.state = MemPosition::At(i);
                proof {
                    assert(self.keys() =~= old(self).keys());
                    assert(self.rows() =~= old(self).rows());
                    assert(self.keys()[i as int] == self.entries@[i as int].0);
                    assert(old(self).keys()[i as int] == k);
                    assert(seek_matches(op, old(self).keys()[i as int], target));
                }
                return Ok(CursorResult::Done(true));
            }
            i = i + 1;
        }
        self.state = MemPosition::OffEnd;
        proof {
            assert(self.keys() =~= old(self).keys());
            assert(self.rows() =~= old(self).rows());
        }
        Ok(CursorResult::Done(false))
    }

    fn seek_to_last(&mut self) -> (r: Result<CursorResult<()>, LimboError>)
        ensures
            r matches Ok(CursorResult::Done(_)),
    {
        self.last()
    }

    fn record(&self) -> (r: Result<Option<OwnedRecord>, LimboError>)
        ensures
            r is Ok,
    {
        match self.state {
            MemPosition::At(i) => {
                let rec = self.entries[i].1.duplicate();
                proof {
                    assert(self.rows()[i as int] == values_view(self.entries@[i as int].1.values@));
                }
                Ok(Some(rec))
            },
            _ => Ok(None),
        }
    }

    fn insert(&mut self, key: &OwnedValue, record: &OwnedRecord, moved_before: bool) -> (r: Result<
        CursorResult<()>,
        LimboError,
    >)
        ensures
            r matches Ok(CursorResult::Done(_)),
    {
        let k = match key {
            OwnedValue::Integer(k) => *k as u64,
            _ => 0,
        };
        let ghost ks = self.keys();
        let ghost rs = self.rows();
        let n = self.entries.len();
        let mut i: usize = 0;
        while i < n
            invariant
                0 <= i <= n,
                self.entries@ == old(self).entries@,
                self.state == old(self).state,
                self.null_flag == old(self).null_flag,
                self.root == old(self).root,
                old(self).inv(),
                n == self.entries@.len(),
                forall|j: int| 0 <= j < i ==> self.entries@[j].0 < k,
            ensures
                0 <= i <= n,
                self.entries@ == old(self).entries@,
                self.state == old(self).state,
                self.null_flag == old(self).null_flag,
                self.root == old(self).root,
                n == self.entries@.len(),
                forall|j: int| 0 <= j < i ==> self.entries@[j].0 < k,
                i < n ==> self.entries@[i as int].0 >= k,
            decreases n - i,
        {
            if self.entries[i].0 >= k {
                break ;
            }
            i = i + 1;
        }
        if i < n && self.entries[i].0 == k {
            let ghost before = self.entries@;
            self.entries.remove(i);
            self.entries.insert(i, (k, record.duplicate()));
            self.state = MemPosition::Unpositioned;
            proof {
                assert(self.entries@ =~= before.update(i as int, self.entries@[i as int]));
                assert(self.keys() =~= ks);
                assert(self.rows() =~= rs.update(i as int, record@));
                assert(ks[i as int] == k);
                assert(ks.contains(k));
            }
        } else {
            let ghost before = self.entries@;
            self.entries.insert(i, (k, record.duplicate()));
            self.state = MemPosition::Unpositioned;
            proof {
                assert(forall|j: int| i <= j < n ==> before[j].0 > k) by {
                    assert(forall|j: int| 0 <= j < i ==> before[j].0 < k);
                    if i < n {
                        assert(before[i as int].0 >= k && before[i as int].0 != k);
                        assert(forall|j: int|
                            i < j < n ==> before[i as int].0 < before[j].0);
                    }
                }
                assert(!ks.contains(k)) by {
                    if ks.contains(k) {
                        let w = choose|w: int| 0 <= w < ks.len() && ks[w] == k;
                        assert(before[w].0 == k);
                    }
                }
                assert(self.keys() =~= ks.insert(i as int, k));
                assert(self.rows() =~= rs.insert(i as int, record@));
                assert(forall|i2: int, j2: int|
                    0 <= i2 < j2 < self.entries@.len() ==> self.entries@[i2].0
                        < self.entries@[j2].0);
            }
        }
        Ok(CursorResult::Done(()))
    }

    fn delete(&mut self) -> (r: Result<CursorResult<()>, LimboError>)
        ensures
            r matches Ok(CursorResult::Done(_)),
    {
        let i = match self.state {
            MemPosition::At(i) => i,
            _ => 0,
        };
        let ghost ks = self.keys();
        let ghost rs = self.rows();
        self.entries.remove(i);
        self.state = MemPosition::Unpositioned;
        proof {
            assert(self.keys() =~= ks.remove(i as int));
            assert(self.rows() =~= rs.remove(i as int));
        }
        Ok(CursorResult::Done(()))
    }

    fn key_exists(&mut self, key: &OwnedValue) -> (r: Result<CursorResult<bool>, LimboError>)
        ensures
            r matches Ok(CursorResult::Done(_)),
    {
        let k = match key {
            OwnedValue::Integer(k) => *k as u64,
            _ => 0,
        };
        proof {
            match *key {
                OwnedValue::Integer(kk) => {
                    assert(key@ == ValueView::Integer(kk as int));
                    assert(k == (kk as int) as u64);
                },
                _ => {},
            }
            assert(key@ matches ValueView::Integer(kv) ==> k == kv as u64);
        }
        let n = self.entries.len();
        let mut i: usize = 0;
        while i < n
            invariant
                0 <= i <= n,
                self.entries@ == old(self).entries@,
                self.state == old(self).state,
                self.null_flag == old(self).null_flag,
                self.root == old(self).root,
                old(self).inv(),
                n == self.entries@.len(),
                key@ matches ValueView::Integer(kv) ==> k == kv as u64,
                forall|j: int| 0 <= j < i ==> self.entries@[j].0 != k,
            decreases n - i,
        {
            if self.entries[i].0 == k {
                proof {
                    assert(self.keys() =~= old(self).keys());
                    assert(self.rows() =~= old(self).rows());
                    assert(self.keys()[i as int] == k);
                    assert(self.keys().contains(k));
                    assert(key@ matches ValueView::Integer(kv) ==> old(self).keys().contains(
                        kv as u64,
                    ));
                    assert(self.position() == old(self).position());
                    assert(self.null_flag_model() == old(self).null_flag_model());
                    assert(self.inv());
                }
                return Ok(CursorResult::Done(true));
            }
            i = i + 1;
        }
        proof {
            assert(self.keys() =~= old(self).keys());
            assert(self.rows() =~= old(self).rows());
            if self.keys().contains(k) {
                let w = choose|w: int| 0 <= w < self.keys().len() && self.keys()[w] == k;
                assert(self.entries@[w].0 == k);
            }
        }
        Ok(CursorResult::Done(false))
    }

    fn set_null_flag(&mut self, flag: bool) {
        self.null_flag = flag;
    }

    fn get_null_flag(&self) -> (r: bool) {
        self.null_flag
    }

    fn btree_create(&mut self, flags: usize) -> (r: u32)
        ensures
            r == old(self).root,
    {
        self.root as u32
    }
}

} // verus!
