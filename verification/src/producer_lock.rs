//! Exclusive per-topic producer lock.
//!
//! Two layers: an advisory lock on a file keeps other processes out, and a table of this
//! process keeps a second publisher of the same process out, which the file lock alone may
//! let through.

use crate::error::{Error, IoKind};
use vstd::prelude::*;

verus! {

/// The lock files that publishers of this process hold.
pub struct LockTable {
    paths: Vec<String>,
}

/// Whether `path` is among the paths.
pub open spec fn held(paths: Seq<Seq<char>>, path: Seq<char>) -> bool {
    exists|i: int| 0 <= i < paths.len() && #[trigger] paths[i] == path
}

/// No path occurs twice.
pub open spec fn distinct(paths: Seq<Seq<char>>) -> bool {
    forall|i: int, j: int| 0 <= i < j < paths.len() ==> #[trigger] paths[i] != #[trigger] paths[j]
}

impl View for LockTable {
    type V = Seq<Seq<char>>;

    closed spec fn view(&self) -> Seq<Seq<char>> {
        self.paths@.map_values(|s: String| s@)
    }
}

impl LockTable {
    pub open spec fn wf(&self) -> bool {
        distinct(self@)
    }

    /// Nobody publishes.
    pub fn new() -> (t: LockTable)
        ensures
            t.wf(),
            t@ == Seq::<Seq<char>>::empty(),
    {
        let t = LockTable { paths: Vec::new() };
        assert(t@ =~= Seq::<Seq<char>>::empty());
        t
    }

    /// The place of `path` in the table.
    fn find(&self, path: &String) -> (r: Option<usize>)
        ensures
            match r {
                Some(i) => i < self@.len() && self@[i as int] == path@,
                None => !held(self@, path@),
            },
    {
        let mut i: usize = 0;
        while i < self.paths.len()
            invariant
                i <= self.paths@.len(),
                self@.len() == self.paths@.len(),
                forall|j: int| 0 <= j < i ==> #[trigger] self@[j] != path@,
            decreases self.paths@.len() - i,
        {
            assert(self@[i as int] == self.paths@[i as int]@);
            if self.paths[i] == *path {
                return Some(i);
            }
            i = i + 1;
        }
        None
    }

    /// Enters a path: `false` if it is in the table already.
    pub fn reserve(&mut self, path: String) -> (ok: bool)
        requires
            old(self).wf(),
        ensures
            final(self).wf(),
            ok == !held(old(self)@, path@),
            final(self)@ == (if ok {
                old(self)@.push(path@)
            } else {
                old(self)@
            }),
    {
        match self.find(&path) {
            Some(i) => {
                assert(self@[i as int] == path@);
                false
            },
            None => {
                let ghost before = self@;
                let ghost name = path@;
                self.paths.push(path);
                proof {
                    assert(self@ =~= before.push(name));
                    assert forall|i: int, j: int| 0 <= i < j < self@.len() implies #[trigger] self@[i]
                        != #[trigger] self@[j] by {
                        assert(self@[i] == before[i]);
                        if j < before.len() {
                            assert(self@[j] == before[j]);
                        } else if before[i] == name {
                            assert(held(before, name));
                        }
                    }
                }
                true
            },
        }
    }

    /// Takes a path out: its publisher is gone, or did not come to be.
    pub fn release(&mut self, path: &String)
        requires
            old(self).wf(),
        ensures
            final(self).wf(),
            !held(final(self)@, path@),
            forall|p: Seq<char>|
                p != path@ ==> (#[trigger] held(final(self)@, p) <==> held(old(self)@, p)),
    {
        match self.find(path) {
            None => {},
            Some(i) => {
                let ghost before = self@;
                let _gone: String = self.paths.remove(i);
                proof {
                    let after = self@;
                    assert(after =~= before.remove(i as int));
                    assert forall|a: int, b: int| 0 <= a < b < after.len() implies #[trigger] after[a]
                        != #[trigger] after[b] by {
                        let x = if a < i {
                            a
                        } else {
                            a + 1
                        };
                        let y = if b < i {
                            b
                        } else {
                            b + 1
                        };
                        assert(before[x] != before[y]);
                    }
                    if held(after, path@) {
                        let a = choose|a: int| 0 <= a < after.len() && #[trigger] after[a] == path@;
                        let x = if a < i {
                            a
                        } else {
                            a + 1
                        };
                        assert(before[x] == path@ && before[i as int] == path@);
                    }
                    assert forall|p: Seq<char>| p != path@ implies (#[trigger] held(after, p)
                        <==> held(before, p)) by {
                        if held(after, p) {
                            let a = choose|a: int| 0 <= a < after.len() && #[trigger] after[a] == p;
                            let x = if a < i {
                                a
                            } else {
                                a + 1
                            };
                            assert(before[x] == p);
                        }
                        if held(before, p) {
                            let x = choose|x: int|
                                0 <= x < before.len() && #[trigger] before[x] == p;
                            assert(x != i);
                            let a = if x < i {
                                x
                            } else {
                                x - 1
                            };
                            assert(after[a] == p);
                        }
                    }
                }
            },
        }
    }

    /// Settles a reserved path once its file was opened and locked: the path stays in the
    /// table if both went well.
    pub fn settle(
        &mut self,
        name: &str,
        path: &String,
        opened: Result<(), IoKind>,
        locked: bool,
    ) -> (r: Result<(), Error>)
        requires
            old(self).wf(),
        ensures
            final(self).wf(),
            match opened {
                Err(kind) => r == Err::<(), Error>(Error::Io(kind)),
                Ok(_) => if locked {
                    r == Ok::<(), Error>(())
                } else {
                    r matches Err(Error::AlreadyPublishing(who)) && who@ == name@
                },
            },
            r is Ok ==> final(self)@ == old(self)@,
            r is Err ==> !held(final(self)@, path@) && forall|p: Seq<char>|
                p != path@ ==> (#[trigger] held(final(self)@, p) <==> held(old(self)@, p)),
    {
        match opened {
            Err(kind) => {
                self.release(path);
                Err(Error::Io(kind))
            },
            Ok(_) => {
                if locked {
                    Ok(())
                } else {
                    self.release(path);
                    Err(Error::AlreadyPublishing(name.to_owned()))
                }
            },
        }
    }
}

/// What comes of an attempt to take the producer lock of the topic `name`: whether this
/// process holds it already, and how opening and locking its file went.
pub open spec fn acquired(
    r: Result<(), Error>,
    name: Seq<char>,
    held: bool,
    opened: Result<(), IoKind>,
    locked: bool,
) -> bool {
    if held {
        r matches Err(Error::AlreadyPublishing(who)) && who@ == name
    } else {
        match opened {
            Err(kind) => r == Err::<(), Error>(Error::Io(kind)),
            Ok(_) => if locked {
                r == Ok::<(), Error>(())
            } else {
                r matches Err(Error::AlreadyPublishing(who)) && who@ == name
            },
        }
    }
}

/// Takes the producer lock of the topic `name`: refuses it if a publisher of this process
/// holds it, and otherwise goes by how opening and locking its file went. Not both of two
/// attempts succeed unless the first holder lets go.
pub fn acquire_producer_lock(
    table: &mut LockTable,
    name: &str,
    path: &String,
    opened: Result<(), IoKind>,
    locked: bool,
) -> (r: Result<(), Error>)
    requires
        old(table).wf(),
    ensures
        final(table).wf(),
        acquired(r, name@, held(old(table)@, path@), opened, locked),
        if held(old(table)@, path@) {
            final(table)@ == old(table)@
        } else {
            &&& r is Ok <==> held(final(table)@, path@)
            &&& forall|p: Seq<char>|
                p != path@ ==> (#[trigger] held(final(table)@, p) <==> held(old(table)@, p))
        },
{
    let ghost before = table@;
    if !table.reserve(path.clone()) {
        return Err(Error::AlreadyPublishing(name.to_owned()));
    }
    proof {
        let mid = table@;
        assert(mid[before.len() as int] == path@);
        assert forall|p: Seq<char>| p != path@ implies (#[trigger] held(mid, p) <==> held(
            before,
            p,
        )) by {
            if held(before, p) {
                let i = choose|i: int| 0 <= i < before.len() && #[trigger] before[i] == p;
                assert(mid[i] == p);
            }
            if held(mid, p) {
                let i = choose|i: int| 0 <= i < mid.len() && #[trigger] mid[i] == p;
                assert(before[i] == p);
            }
        }
    }
    table.settle(name, path, opened, locked)
}

/// The lock is taken exactly when nobody here holds it, its file was opened, and nobody else
/// has locked it. Whoever is refused because of another publisher is told so by name.
pub proof fn law_lock_is_taken_once(
    r: Result<(), Error>,
    name: Seq<char>,
    here: bool,
    opened: Result<(), IoKind>,
    locked: bool,
)
    requires
        acquired(r, name, here, opened, locked),
    ensures
        r is Ok <==> !here && opened is Ok && locked,
        !here && opened is Err ==> r == Err::<(), Error>(Error::Io(opened->Err_0)),
        here || (opened is Ok && !locked) ==> r is Err && r->Err_0 is AlreadyPublishing
            && r->Err_0->AlreadyPublishing_0@ == name,
{
}

} // verus!
