//! Plans: the file operations that a change to the store consists of, in the
//! order in which they are carried out.

use crate::disk::{path_of, Disk};
use crate::tree::{create_dir, create_dir_all, remove_file, write_file, FsError, Path, Tree};
use vstd::prelude::*;

verus! {

/// One file operation of a plan.
#[derive(Debug, PartialEq, Eq)]
pub enum FsOp {
    /// Create a directory in its parent.
    CreateDir(Vec<String>),
    /// Create a directory and every missing directory on the way to it.
    CreateDirAll(Vec<String>),
    /// Write a text to a file, creating the file if it is not there.
    Write(Vec<String>, String),
    /// Remove a file.
    RemoveFile(Vec<String>),
}

/// A file operation as a mathematical value.
pub ghost enum Action {
    CreateDir(Path),
    CreateDirAll(Path),
    Write(Path, Seq<char>),
    RemoveFile(Path),
}

impl View for FsOp {
    type V = Action;

    open spec fn view(&self) -> Action {
        match self {
            FsOp::CreateDir(p) => Action::CreateDir(path_of(p@)),
            FsOp::CreateDirAll(p) => Action::CreateDirAll(path_of(p@)),
            FsOp::Write(p, text) => Action::Write(path_of(p@), text@),
            FsOp::RemoveFile(p) => Action::RemoveFile(path_of(p@)),
        }
    }
}

/// The actions that a vector of operations stands for.
pub open spec fn actions(ops: Seq<FsOp>) -> Seq<Action> {
    Seq::new(ops.len(), |i: int| ops[i]@)
}

/// What one action does to a tree.
pub open spec fn apply(t: Tree, action: Action) -> Result<Tree, FsError> {
    match action {
        Action::CreateDir(p) => create_dir(t, p),
        Action::CreateDirAll(p) => create_dir_all(t, p),
        Action::Write(p, text) => write_file(t, p, text),
        Action::RemoveFile(p) => remove_file(t, p),
    }
}

/// What a plan does to a tree. The actions are carried out in order; the
/// first that fails ends the plan, and what was done before it stays done.
/// The result is the tree that is left, and the failure if there was one.
pub open spec fn run(t: Tree, plan: Seq<Action>) -> (Tree, Option<FsError>)
    decreases plan.len(),
{
    if plan.len() == 0 {
        (t, None)
    } else {
        match apply(t, plan[0]) {
            Ok(u) => run(u, plan.subrange(1, plan.len() as int)),
            Err(e) => (t, Some(e)),
        }
    }
}

/// Running two plans one after the other is running the first and, if it
/// did not fail, the second on what it left.
pub proof fn lemma_run_concat(t: Tree, a: Seq<Action>, b: Seq<Action>)
    ensures
        run(t, a + b) == if run(t, a).1 is None {
            run(run(t, a).0, b)
        } else {
            run(t, a)
        },
    decreases a.len(),
{
    if a.len() == 0 {
        assert(a + b =~= b);
    } else {
        let rest = a.subrange(1, a.len() as int);
        assert((a + b)[0] == a[0]);
        assert((a + b).subrange(1, (a + b).len() as int) =~= rest + b);
        match apply(t, a[0]) {
            Ok(u) => {
                lemma_run_concat(u, rest, b);
            },
            Err(_) => {},
        }
    }
}

impl Disk {
    /// Carries out one operation.
    pub fn apply(&mut self, op: &FsOp) -> (r: Result<(), FsError>)
        requires
            old(self).wf(),
        ensures
            final(self).wf(),
            match r {
                Ok(_) => apply(old(self)@, op@) == Ok::<Tree, FsError>(final(self)@),
                Err(e) => apply(old(self)@, op@) == Err::<Tree, FsError>(e) && final(self)@
                    == old(self)@,
            },
    {
        match op {
            FsOp::CreateDir(p) => self.create_dir(p),
            FsOp::CreateDirAll(p) => self.create_dir_all(p),
            FsOp::Write(p, text) => self.write_file(p, text.as_str()),
            FsOp::RemoveFile(p) => self.remove_file(p),
        }
    }

    /// Carries out a plan: each operation in order, up to the first that
    /// fails. What was done before a failure stays done.
    pub fn run(&mut self, ops: &Vec<FsOp>) -> (r: Result<(), FsError>)
        requires
            old(self).wf(),
        ensures
            final(self).wf(),
            run(old(self)@, actions(ops@)) == (
                final(self)@,
                match r {
                    Ok(_) => None::<FsError>,
                    Err(e) => Some(e),
                },
            ),
    {
        let ghost before = self@;
        let ghost plan = actions(ops@);
        let mut i: usize = 0;
        assert(plan.subrange(0, plan.len() as int) =~= plan);
        while i < ops.len()
            invariant
                i <= ops@.len(),
                plan == actions(ops@),
                before == old(self)@,
                self.wf(),
                run(before, plan) == run(self@, plan.subrange(i as int, plan.len() as int)),
            decreases ops@.len() - i,
        {
            let ghost rest = plan.subrange(i as int, plan.len() as int);
            proof {
                assert(rest[0] == ops@[i as int]@);
                assert(rest.subrange(1, rest.len() as int) =~= plan.subrange(
                    i + 1,
                    plan.len() as int,
                ));
            }
            let ghost cur = self@;
            match self.apply(&ops[i]) {
                Ok(_) => {},
                Err(e) => {
                    assert(rest.len() > 0);
                    assert(apply(cur, rest[0]) == Err::<Tree, FsError>(e));
                    assert(run(cur, rest) == (cur, Some(e)));
                    return Err(e);
                },
            }
            i = i + 1;
        }
        Ok(())
    }
}

/// A plan of four actions that each succeed leaves what the last of them
/// leaves.
pub proof fn lemma_run_four(t: Tree, a: Action, b: Action, c: Action, d: Action)
    requires
        apply(t, a) is Ok,
        apply(apply(t, a)->Ok_0, b) is Ok,
        apply(apply(apply(t, a)->Ok_0, b)->Ok_0, c) is Ok,
        apply(apply(apply(apply(t, a)->Ok_0, b)->Ok_0, c)->Ok_0, d) is Ok,
    ensures
        run(t, seq![a, b, c, d]) == (
            apply(apply(apply(apply(t, a)->Ok_0, b)->Ok_0, c)->Ok_0, d)->Ok_0,
            None::<FsError>,
        ),
{
    let t1 = apply(t, a)->Ok_0;
    let t2 = apply(t1, b)->Ok_0;
    let t3 = apply(t2, c)->Ok_0;
    let t4 = apply(t3, d)->Ok_0;
    let whole = seq![a, b, c, d];
    let after_a = seq![b, c, d];
    let after_b = seq![c, d];
    let after_c = seq![d];
    assert(whole.subrange(1, 4) =~= after_a);
    assert(after_a.subrange(1, 3) =~= after_b);
    assert(after_b.subrange(1, 2) =~= after_c);
    assert(after_c.subrange(1, 1) =~= Seq::<Action>::empty());
    assert(run(t4, Seq::<Action>::empty()) == (t4, None::<FsError>));
    assert(run(t3, after_c) == (t4, None::<FsError>));
    assert(run(t2, after_b) == (t4, None::<FsError>));
    assert(run(t1, after_a) == (t4, None::<FsError>));
}

} // verus!
