//! The unification table: union-find over inference placeholders with path
//! compression. A slot is unresolved, redirected toward an earlier slot, or
//! resolved to an interned base identity. Union only ever points a slot at a
//! strictly earlier one, so no cycle can form and `find` is always defined.
//! Every slot transition is queued as an event so the scheduler can retry
//! work blocked on the transitioned placeholder; unification itself never
//! fails, a kind mismatch is data handed back to the caller.

use vstd::prelude::*;
use crate::ty::Base;

verus! {

/// One slot of the table.
#[derive(Clone, Copy, Debug, PartialEq, Eq, Structural)]
pub enum Cell {
    /// No information yet.
    Unresolved,
    /// Unioned toward a strictly earlier slot.
    Redirect(usize),
    /// Resolved to the base data with this interned identity.
    Resolved(usize),
}

/// Redirects only ever point at strictly earlier slots.
pub open spec fn wf_cells(s: Seq<Cell>) -> bool {
    forall|i: int|
        0 <= i < s.len() ==> (match #[trigger] s[i] {
            Cell::Redirect(j) => j < i,
            _ => true,
        })
}

/// The representative slot `v` resolves to, following redirects.
pub open spec fn root_of(s: Seq<Cell>, v: int) -> int
    decreases (if v < 0 { 0 } else { v }),
{
    if 0 <= v < s.len() {
        match s[v] {
            Cell::Redirect(j) => if j < v {
                root_of(s, j as int)
            } else {
                v
            },
            _ => v,
        }
    } else {
        v
    }
}

/// The resolved identity of `v`'s class, if its representative is resolved.
pub open spec fn val_of(s: Seq<Cell>, v: int) -> Option<usize> {
    if 0 <= root_of(s, v) < s.len() {
        match s[root_of(s, v)] {
            Cell::Resolved(id) => Some(id),
            _ => None,
        }
    } else {
        None
    }
}

/// What a base component denotes in the table: its identity if known.
pub open spec fn base_val(s: Seq<Cell>, b: Base) -> Option<usize> {
    match b {
        Base::Known(id) => Some(id),
        Base::Infer(v) => val_of(s, v as int),
    }
}

/// The placeholder a base names; meaningful only for `Infer` bases.
pub open spec fn bvar(b: Base) -> int {
    match b {
        Base::Infer(v) => v as int,
        Base::Known(_) => -1,
    }
}

/// How many slots still hold no information.
pub open spec fn count_unres(s: Seq<Cell>) -> nat
    decreases s.len(),
{
    if s.len() == 0 {
        0
    } else {
        count_unres(s.drop_last()) + (if s.last() is Unresolved {
            1nat
        } else {
            0nat
        })
    }
}

/// A representative is never past its slot and never a redirect.
pub proof fn lemma_root_props(s: Seq<Cell>, v: int)
    requires
        wf_cells(s),
        0 <= v < s.len(),
    ensures
        0 <= root_of(s, v) <= v,
        !(s[root_of(s, v)] is Redirect),
    decreases v,
{
    match s[v] {
        Cell::Redirect(j) => {
            lemma_root_props(s, j as int);
        },
        _ => {},
    }
}

/// Updating one slot moves the unresolved count by the two slots' tags.
pub proof fn lemma_count_update(s: Seq<Cell>, i: int, c: Cell)
    requires
        0 <= i < s.len(),
    ensures
        count_unres(s.update(i, c)) + (if s[i] is Unresolved {
            1int
        } else {
            0int
        }) == count_unres(s) + (if c is Unresolved {
            1int
        } else {
            0int
        }),
    decreases s.len(),
{
    let s2 = s.update(i, c);
    if i == s.len() - 1 {
        assert(s2.drop_last() =~= s.drop_last());
    } else {
        assert(s2.drop_last() =~= s.drop_last().update(i, c));
        lemma_count_update(s.drop_last(), i, c);
    }
}

/// Appending a slot adds its tag to the unresolved count.
pub proof fn lemma_count_push(s: Seq<Cell>, c: Cell)
    ensures
        count_unres(s.push(c)) == count_unres(s) + (if c is Unresolved {
            1int
        } else {
            0int
        }),
{
    assert(s.push(c).drop_last() =~= s);
}

/// Appending a slot leaves every earlier slot's representative alone.
pub proof fn lemma_root_push(s: Seq<Cell>, c: Cell, w: int)
    requires
        wf_cells(s),
    ensures
        0 <= w < s.len() ==> root_of(s.push(c), w) == root_of(s, w),
    decreases (if w < 0 { 0 } else { w }),
{
    if 0 <= w < s.len() {
        match s[w] {
            Cell::Redirect(j) => {
                lemma_root_push(s, c, j as int);
            },
            _ => {},
        }
    }
}

/// Rewriting a non-redirect slot to a non-redirect slot moves no
/// representative.
pub proof fn lemma_root_update_terminal(s: Seq<Cell>, i: int, c: Cell, w: int)
    requires
        wf_cells(s),
        0 <= i < s.len(),
        !(s[i] is Redirect),
        !(c is Redirect),
    ensures
        root_of(s.update(i, c), w) == root_of(s, w),
    decreases (if w < 0 { 0 } else { w }),
{
    let s2 = s.update(i, c);
    if 0 <= w < s.len() {
        if w != i {
            match s[w] {
                Cell::Redirect(j) => {
                    lemma_root_update_terminal(s, i, c, j as int);
                },
                _ => {},
            }
        }
    }
}

/// Resolving a representative slot gives its class that value and no other
/// class anything.
pub proof fn lemma_val_update_terminal(s: Seq<Cell>, i: int, c: Cell, w: int)
    requires
        wf_cells(s),
        0 <= i < s.len(),
        !(s[i] is Redirect),
        !(c is Redirect),
    ensures
        val_of(s.update(i, c), w) == (if root_of(s, w) == i {
            match c {
                Cell::Resolved(id) => Some(id),
                _ => None,
            }
        } else {
            val_of(s, w)
        }),
{
    lemma_root_update_terminal(s, i, c, w);
    if 0 <= w < s.len() {
        lemma_root_props(s, w);
    }
}

/// Pointing an unresolved representative `hi` at a representative `lo`
/// merges exactly the classes of the two: every slot that resolved to `hi`
/// now resolves to `lo`, all others keep their representative.
pub proof fn lemma_root_union(s: Seq<Cell>, hi: usize, lo: usize, w: int)
    requires
        wf_cells(s),
        lo < hi,
        (hi as int) < s.len(),
        s[hi as int] is Unresolved,
        !(s[lo as int] is Redirect),
    ensures
        root_of(s.update(hi as int, Cell::Redirect(lo)), w) == (if root_of(s, w) == hi {
            lo as int
        } else {
            root_of(s, w)
        }),
    decreases (if w < 0 { 0 } else { w }),
{
    let s2 = s.update(hi as int, Cell::Redirect(lo));
    if 0 <= w < s.len() {
        if w == hi {
            lemma_root_union(s, hi, lo, lo as int);
        } else {
            match s[w] {
                Cell::Redirect(j) => {
                    lemma_root_union(s, hi, lo, j as int);
                },
                _ => {},
            }
        }
    }
}

/// Merging two unresolved classes changes no class's value: both had none.
pub proof fn lemma_val_union(s: Seq<Cell>, hi: usize, lo: usize, w: int)
    requires
        wf_cells(s),
        lo < hi,
        (hi as int) < s.len(),
        s[hi as int] is Unresolved,
        s[lo as int] is Unresolved,
    ensures
        val_of(s.update(hi as int, Cell::Redirect(lo)), w) == val_of(s, w),
{
    lemma_root_union(s, hi, lo, w);
    if 0 <= w < s.len() {
        lemma_root_props(s, w);
    }
}

/// Re-pointing a redirect straight at its representative moves no
/// representative: the step path compression takes.
pub proof fn lemma_root_compress(s: Seq<Cell>, i: int, r: usize, w: int)
    requires
        wf_cells(s),
        0 <= i < s.len(),
        s[i] is Redirect,
        r == root_of(s, i),
    ensures
        root_of(s.update(i, Cell::Redirect(r)), w) == root_of(s, w),
    decreases (if w < 0 { 0 } else { w }),
{
    lemma_root_props(s, i);
    let s2 = s.update(i, Cell::Redirect(r));
    if 0 <= w < s.len() {
        if w == i {
            lemma_root_compress(s, i, r, r as int);
            lemma_root_props(s, r as int);
        } else {
            match s[w] {
                Cell::Redirect(j) => {
                    lemma_root_compress(s, i, r, j as int);
                },
                _ => {},
            }
        }
    }
}

/// Whether unification of the two bases reports success: it does unless both
/// sides are already resolved, in which case the caller compares their kinds.
pub open spec fn unify_success(s: Seq<Cell>, a: Base, b: Base) -> bool {
    !(base_val(s, a) is Some && base_val(s, b) is Some)
}

/// The representative map after unifying `a` with `b`: unchanged unless both
/// sides were unresolved placeholders with distinct representatives, in which
/// case the larger representative now points at the smaller.
pub open spec fn m_root(s: Seq<Cell>, a: Base, b: Base, w: int) -> int {
    if base_val(s, a) is None && base_val(s, b) is None {
        let ra = root_of(s, bvar(a));
        let rb = root_of(s, bvar(b));
        if ra == rb {
            root_of(s, w)
        } else {
            let hi = if ra < rb {
                rb
            } else {
                ra
            };
            let lo = if ra < rb {
                ra
            } else {
                rb
            };
            if root_of(s, w) == hi {
                lo
            } else {
                root_of(s, w)
            }
        }
    } else {
        root_of(s, w)
    }
}

/// The value map after unifying `a` with `b`: when exactly one side was
/// resolved, the unresolved side's class takes that side's identity; in every
/// other case no value changes.
pub open spec fn m_val(s: Seq<Cell>, a: Base, b: Base, w: int) -> Option<usize> {
    if base_val(s, a) is None && base_val(s, b) is Some {
        if root_of(s, w) == root_of(s, bvar(a)) {
            base_val(s, b)
        } else {
            val_of(s, w)
        }
    } else if base_val(s, a) is Some && base_val(s, b) is None {
        if root_of(s, w) == root_of(s, bvar(b)) {
            base_val(s, a)
        } else {
            val_of(s, w)
        }
    } else {
        val_of(s, w)
    }
}

/// Unification symmetry: unifying the two sides in either order succeeds or
/// mismatches alike and leaves identical representative and value maps; a
/// mismatch hands back the same pair of identities, in swapped order.
pub proof fn lemma_unify_symmetric(s: Seq<Cell>, a: Base, b: Base)
    ensures
        unify_success(s, a, b) == unify_success(s, b, a),
        forall|w: int| #[trigger] m_root(s, a, b, w) == m_root(s, b, a, w),
        forall|w: int| #[trigger] m_val(s, a, b, w) == m_val(s, b, a, w),
{
}

/// The union-find table of one checking pass, with its queue of slots whose
/// state changed and that the scheduler has not yet looked at.
pub struct UnificationTable {
    cells: Vec<Cell>,
    events: Vec<usize>,
}

impl UnificationTable {
    /// The table's slots.
    pub closed spec fn slots(&self) -> Seq<Cell> {
        self.cells@
    }

    /// Slots that transitioned and await the scheduler's attention.
    pub closed spec fn pending(&self) -> Seq<usize> {
        self.events@
    }

    /// Well-formed: redirects decrease and queued events name real slots.
    pub open spec fn wf(&self) -> bool {
        &&& wf_cells(self.slots())
        &&& forall|i: int|
            0 <= i < self.pending().len() ==> (#[trigger] self.pending()[i]) < self.slots().len()
    }

    /// The measure the scheduler's fixpoint loop decreases: slots that can
    /// still transition plus transitions not yet looked at. Every table
    /// operation except placeholder creation keeps or lowers it.
    pub open spec fn budget(&self) -> int {
        count_unres(self.slots()) + self.pending().len() as int
    }

    /// An empty table.
    pub fn new() -> (r: UnificationTable)
        ensures
            r.wf(),
            r.slots().len() == 0,
            r.pending().len() == 0,
    {
        UnificationTable { cells: Vec::new(), events: Vec::new() }
    }

    /// The number of placeholders handed out.
    pub fn num_vars(&self) -> (r: usize)
        ensures
            r == self.slots().len(),
    {
        self.cells.len()
    }

    /// Allocates a fresh unresolved placeholder.
    pub fn new_placeholder(&mut self) -> (v: usize)
        requires
            old(self).wf(),
        ensures
            final(self).wf(),
            v == old(self).slots().len(),
            final(self).slots() == old(self).slots().push(Cell::Unresolved),
            final(self).pending() == old(self).pending(),
            final(self).budget() == old(self).budget() + 1,
            forall|w: int|
                0 <= w < old(self).slots().len() ==> #[trigger] root_of(final(self).slots(), w)
                    == root_of(old(self).slots(), w) && val_of(final(self).slots(), w) == val_of(
                    old(self).slots(),
                    w,
                ),
            root_of(final(self).slots(), v as int) == v,
            val_of(final(self).slots(), v as int) is None,
    {
        let v = self.cells.len();
        self.cells.push(Cell::Unresolved);
        proof {
            lemma_count_push(old(self).slots(), Cell::Unresolved);
            assert forall|w: int| 0 <= w < old(self).slots().len() implies #[trigger] root_of(
                self.slots(),
                w,
            ) == root_of(old(self).slots(), w) && val_of(self.slots(), w) == val_of(
                old(self).slots(),
                w,
            ) by {
                lemma_root_push(old(self).slots(), Cell::Unresolved, w);
                lemma_root_props(old(self).slots(), w);
            }
            assert forall|i: int| 0 <= i < self.pending().len() implies (
            #[trigger] self.pending()[i]) < self.slots().len() by {
                assert(old(self).pending()[i] < old(self).slots().len());
            }
        }
        v
    }

    /// Resolves `v` through redirects to its representative, compressing the
    /// path walked: afterwards every slot keeps its representative and value.
    /// Returns the representative and, if resolved, its identity.
    #[verifier::loop_isolation(false)]
    pub fn find(&mut self, v: usize) -> (r: (usize, Option<usize>))
        requires
            old(self).wf(),
            v < old(self).slots().len(),
        ensures
            final(self).wf(),
            final(self).slots().len() == old(self).slots().len(),
            final(self).pending() == old(self).pending(),
            forall|w: int| #[trigger]
                root_of(final(self).slots(), w) == root_of(old(self).slots(), w),
            forall|w: int| #[trigger] val_of(final(self).slots(), w) == val_of(old(self).slots(), w),
            count_unres(final(self).slots()) == count_unres(old(self).slots()),
            r.0 == root_of(old(self).slots(), v as int),
            r.1 == val_of(old(self).slots(), v as int),
            r.0 < final(self).slots().len(),
            !(final(self).slots()[r.0 as int] is Redirect),
            (r.1 is None) == (final(self).slots()[r.0 as int] is Unresolved),
            forall|w: int|
                0 <= w < old(self).slots().len() && !(old(self).slots()[w] is Redirect)
                    ==> final(self).slots()[w] == old(self).slots()[w],
    {
        proof {
            lemma_root_props(self.cells@, v as int);
        }
        let mut cur = v;
        loop
            invariant
                cur < self.cells@.len(),
                self.cells@ == old(self).slots(),
                self.events@ == old(self).pending(),
                root_of(self.cells@, cur as int) == root_of(self.cells@, v as int),
            decreases cur,
        {
            match self.cells[cur] {
                Cell::Redirect(j) => {
                    cur = j;
                },
                _ => {
                    break ;
                },
            }
        }
        let root = cur;
        let val = match self.cells[root] {
            Cell::Resolved(id) => Some(id),
            _ => None,
        };
        // Path compression: point every slot on the walked path straight at
        // the representative.
        let mut p = v;
        while p != root
            invariant
                p < self.cells@.len(),
                root < self.cells@.len(),
                wf_cells(self.cells@),
                self.cells@.len() == old(self).slots().len(),
                self.events@ == old(self).pending(),
                count_unres(self.cells@) == count_unres(old(self).slots()),
                forall|w: int| #[trigger]
                    root_of(self.cells@, w) == root_of(old(self).slots(), w),
                forall|w: int| #[trigger] val_of(self.cells@, w) == val_of(old(self).slots(), w),
                root_of(self.cells@, p as int) == root,
                !(self.cells@[root as int] is Redirect),
                self.cells@[root as int] == old(self).slots()[root as int],
                val == (match self.cells@[root as int] {
                    Cell::Resolved(id) => Some(id),
                    _ => None,
                }),
                forall|w: int|
                    0 <= w < old(self).slots().len() && !(old(self).slots()[w] is Redirect)
                        ==> self.cells@[w] == old(self).slots()[w],
            decreases p,
        {
            let ghost s = self.cells@;
            match self.cells[p] {
                Cell::Redirect(j) => {
                    proof {
                        assert(root_of(s, p as int) == root);
                        lemma_root_props(s, p as int);
                    }
                    self.cells.set(p, Cell::Redirect(root));
                    proof {
                        lemma_count_update(s, p as int, Cell::Redirect(root));
                        assert forall|w: int| #[trigger]
                            root_of(self.cells@, w) == root_of(s, w) by {
                            lemma_root_compress(s, p as int, root, w);
                        }
                        assert forall|w: int| #[trigger]
                            val_of(self.cells@, w) == val_of(s, w) by {
                            lemma_root_compress(s, p as int, root, w);
                            if 0 <= root_of(s, w) < s.len() {
                                lemma_root_props(s, root_of(s, w));
                            }
                        }
                    }
                    p = j;
                },
                _ => {
                    proof {
                        assert(false);
                    }
                },
            }
        }
        (root, val)
    }

    /// Merges the classes of the two bases. `Ok` means the table took the
    /// union: an unresolved side now shares the other side's representative
    /// and value. When both sides are already resolved the table changes
    /// nothing and hands both identities back for the caller to compare.
    #[verifier::loop_isolation(false)]
    pub fn unify(&mut self, a: Base, b: Base) -> (r: Result<(), (usize, usize)>)
        requires
            old(self).wf(),
            a matches Base::Infer(v) ==> v < old(self).slots().len(),
            b matches Base::Infer(v) ==> v < old(self).slots().len(),
        ensures
            final(self).wf(),
            final(self).slots().len() == old(self).slots().len(),
            old(self).pending().len() <= final(self).pending().len(),
            forall|i: int|
                0 <= i < old(self).pending().len() ==> #[trigger] final(self).pending()[i] == old(
                    self,
                ).pending()[i],
            final(self).budget() == old(self).budget(),
            forall|w: int| #[trigger]
                root_of(final(self).slots(), w) == m_root(old(self).slots(), a, b, w),
            forall|w: int| #[trigger]
                val_of(final(self).slots(), w) == m_val(old(self).slots(), a, b, w),
            (r is Ok) == unify_success(old(self).slots(), a, b),
            r matches Err(p) ==> base_val(old(self).slots(), a) == Some(p.0) && base_val(
                old(self).slots(),
                b,
            ) == Some(p.1),
    {
        let ghost s0 = self.slots();
        let ra = match a {
            Base::Known(id) => (0usize, Some(id)),
            Base::Infer(v) => self.find(v),
        };
        let rb = match b {
            Base::Known(id) => (0usize, Some(id)),
            Base::Infer(v) => self.find(v),
        };
        proof {
            assert(base_val(self.slots(), a) == base_val(s0, a));
            assert(base_val(self.slots(), b) == base_val(s0, b));
        }
        match (ra.1, rb.1) {
            (Some(x), Some(y)) => Err((x, y)),
            (None, Some(y)) => {
                let ghost s = self.slots();
                proof {
                    assert(s[ra.0 as int] is Unresolved);
                    assert(ra.0 == root_of(s0, bvar(a)));
                }
                self.cells.set(ra.0, Cell::Resolved(y));
                self.events.push(ra.0);
                proof {
                    lemma_count_update(s, ra.0 as int, Cell::Resolved(y));
                    assert forall|w: int| #[trigger]
                        root_of(self.slots(), w) == m_root(s0, a, b, w) by {
                        lemma_root_update_terminal(s, ra.0 as int, Cell::Resolved(y), w);
                    }
                    assert forall|w: int| #[trigger]
                        val_of(self.slots(), w) == m_val(s0, a, b, w) by {
                        lemma_val_update_terminal(s, ra.0 as int, Cell::Resolved(y), w);
                        assert(val_of(s, w) == val_of(s0, w));
                        assert(root_of(s, w) == root_of(s0, w));
                    }
                }
                Ok(())
            },
            (Some(x), None) => {
                let ghost s = self.slots();
                proof {
                    assert(s[rb.0 as int] is Unresolved);
                    assert(rb.0 == root_of(s0, bvar(b)));
                }
                self.cells.set(rb.0, Cell::Resolved(x));
                self.events.push(rb.0);
                proof {
                    lemma_count_update(s, rb.0 as int, Cell::Resolved(x));
                    assert forall|w: int| #[trigger]
                        root_of(self.slots(), w) == m_root(s0, a, b, w) by {
                        lemma_root_update_terminal(s, rb.0 as int, Cell::Resolved(x), w);
                    }
                    assert forall|w: int| #[trigger]
                        val_of(self.slots(), w) == m_val(s0, a, b, w) by {
                        lemma_val_update_terminal(s, rb.0 as int, Cell::Resolved(x), w);
                        assert(val_of(s, w) == val_of(s0, w));
                        assert(root_of(s, w) == root_of(s0, w));
                    }
                }
                Ok(())
            },
            (None, None) => {
                if ra.0 == rb.0 {
                    Ok(())
                } else {
                    let (hi, lo) = if ra.0 > rb.0 {
                        (ra.0, rb.0)
                    } else {
                        (rb.0, ra.0)
                    };
                    let ghost s = self.slots();
                    proof {
                        assert(s[ra.0 as int] is Unresolved);
                        assert(s[rb.0 as int] is Unresolved);
                        assert(ra.0 == root_of(s0, bvar(a)));
                        assert(rb.0 == root_of(s0, bvar(b)));
                    }
                    self.cells.set(hi, Cell::Redirect(lo));
                    self.events.push(hi);
                    proof {
                        lemma_count_update(s, hi as int, Cell::Redirect(lo));
                        assert forall|w: int| #[trigger]
                            root_of(self.slots(), w) == m_root(s0, a, b, w) by {
                            lemma_root_union(s, hi, lo, w);
                        }
                        assert forall|w: int| #[trigger]
                            val_of(self.slots(), w) == m_val(s0, a, b, w) by {
                            lemma_val_union(s, hi, lo, w);
                            assert(val_of(s, w) == val_of(s0, w));
                        }
                    }
                    Ok(())
                }
            },
        }
    }

    /// Re-resolves an already resolved class to the identity `id`: how a
    /// mismatched pair is poisoned so the same pair cannot mismatch again.
    /// The class was already resolved, so no step waits on it and no event is
    /// queued.
    pub fn poison(&mut self, v: usize, id: usize)
        requires
            old(self).wf(),
            v < old(self).slots().len(),
            val_of(old(self).slots(), v as int) is Some,
        ensures
            final(self).wf(),
            final(self).slots().len() == old(self).slots().len(),
            final(self).pending() == old(self).pending(),
            final(self).budget() == old(self).budget(),
            forall|w: int| #[trigger]
                root_of(final(self).slots(), w) == root_of(old(self).slots(), w),
            forall|w: int| #[trigger]
                val_of(final(self).slots(), w) == (if root_of(old(self).slots(), w) == root_of(
                    old(self).slots(),
                    v as int,
                ) {
                    Some(id)
                } else {
                    val_of(old(self).slots(), w)
                }),
    {
        let ghost s0 = self.slots();
        let found = self.find(v);
        let ghost s = self.slots();
        self.cells.set(found.0, Cell::Resolved(id));
        proof {
            lemma_count_update(s, found.0 as int, Cell::Resolved(id));
            assert forall|w: int| #[trigger] root_of(self.slots(), w) == root_of(s0, w) by {
                lemma_root_update_terminal(s, found.0 as int, Cell::Resolved(id), w);
            }
            assert forall|w: int| #[trigger]
                val_of(self.slots(), w) == (if root_of(s0, w) == root_of(s0, v as int) {
                    Some(id)
                } else {
                    val_of(s0, w)
                }) by {
                lemma_val_update_terminal(s, found.0 as int, Cell::Resolved(id), w);
                assert(val_of(s, w) == val_of(s0, w));
                assert(root_of(s, w) == root_of(s0, w));
                if 0 <= w < s.len() {
                    lemma_root_props(s0, w);
                }
            }
        }
    }

    /// Hands the scheduler the next slot transition, oldest first.
    pub fn pop_event(&mut self) -> (r: Option<usize>)
        requires
            old(self).wf(),
        ensures
            final(self).wf(),
            final(self).slots() == old(self).slots(),
            old(self).pending().len() == 0 ==> r is None && final(self).pending() == old(
                self).pending(),
            old(self).pending().len() > 0 ==> r == Some(old(self).pending()[0]) && final(
                self).pending() == old(self).pending().drop_first() && old(self).pending()[0] < old(
                self).slots().len(),
    {
        if self.events.len() == 0 {
            None
        } else {
            let e = self.events.remove(0);
            proof {
                assert(final(self).pending() =~= old(self).pending().drop_first());
            }
            Some(e)
        }
    }
}

} // verus!
