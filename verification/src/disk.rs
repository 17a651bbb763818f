//! A directory tree held in memory, with the operations of a file system on
//! it.

use crate::assoc::{has_key, lemma_to_map_at};
use crate::tree::{
    child_of, create_dir, create_dir_all, file_on_way, is_dir, is_file, lemma_nodes_keys,
    lemma_push_entry, lemma_remove_entry, lemma_update_file, listing, nodes, present, read_dir,
    read_to_string, remove_file, tree_wf, with_dirs, write_file, FsError, Node, Path, Tree,
};
use vstd::prelude::*;

verus! {

/// The path that a vector of names stands for.
pub open spec fn path_of(names: Seq<String>) -> Path {
    Seq::new(names.len(), |i: int| names[i]@)
}

/// Whether two vectors of names stand for the same path.
pub fn same_path(a: &Vec<String>, b: &Vec<String>) -> (r: bool)
    ensures
        r == (path_of(a@) == path_of(b@)),
{
    if a.len() != b.len() {
        assert(path_of(a@).len() != path_of(b@).len());
        return false;
    }
    let mut i: usize = 0;
    while i < a.len()
        invariant
            i <= a@.len(),
            a@.len() == b@.len(),
            forall|j: int| 0 <= j < i ==> a@[j]@ == b@[j]@,
        decreases a@.len() - i,
    {
        if a[i] != b[i] {
            assert(path_of(a@)[i as int] != path_of(b@)[i as int]);
            return false;
        }
        i = i + 1;
    }
    assert(path_of(a@) =~= path_of(b@));
    true
}

/// Whether `q` stands directly in the directory `p`.
pub fn stands_in(q: &Vec<String>, p: &Vec<String>) -> (r: bool)
    ensures
        r == child_of(path_of(q@), path_of(p@)),
{
    if q.len() == 0 || q.len() - 1 != p.len() {
        return false;
    }
    let mut i: usize = 0;
    while i < p.len()
        invariant
            i <= p@.len(),
            q@.len() == p@.len() + 1,
            forall|j: int| 0 <= j < i ==> q@[j]@ == p@[j]@,
        decreases p@.len() - i,
    {
        if q[i] != p[i] {
            assert(path_of(q@).drop_last()[i as int] != path_of(p@)[i as int]);
            return false;
        }
        i = i + 1;
    }
    assert(path_of(q@).drop_last() =~= path_of(p@));
    true
}

/// The first `k` names of `p`.
pub fn path_prefix(p: &Vec<String>, k: usize) -> (r: Vec<String>)
    requires
        k <= p@.len(),
    ensures
        path_of(r@) == path_of(p@).take(k as int),
{
    let mut r: Vec<String> = Vec::new();
    let mut i: usize = 0;
    while i < k
        invariant
            i <= k <= p@.len(),
            r@.len() == i,
            forall|j: int| 0 <= j < i ==> r@[j]@ == p@[j]@,
        decreases k - i,
    {
        r.push(p[i].clone());
        i = i + 1;
    }
    assert(path_of(r@) =~= path_of(p@).take(k as int));
    r
}

/// `p` with `name` added below it.
pub fn path_join(p: &Vec<String>, name: &str) -> (r: Vec<String>)
    ensures
        path_of(r@) == path_of(p@).push(name@),
{
    let mut r = path_prefix(p, p.len());
    let ghost before = r@;
    r.push(name.to_owned());
    assert(path_of(p@).take(p@.len() as int) =~= path_of(p@));
    assert(path_of(r@) =~= path_of(before).push(name@));
    r
}

struct Entry {
    path: Vec<String>,
    text: Option<String>,
}

/// A directory tree held in memory.
pub struct Disk {
    entries: Vec<Entry>,
}

enum Kind {
    Missing,
    Dir,
    File,
}

impl View for Disk {
    type V = Tree;

    closed spec fn view(&self) -> Tree {
        Seq::new(
            self.entries@.len(),
            |i: int|
                (
                    path_of(self.entries@[i].path@),
                    match self.entries@[i].text {
                        Some(s) => Node::File(s@),
                        None => Node::Dir,
                    },
                ),
        )
    }
}

impl Disk {
    /// The invariant of a disk: its tree is well formed.
    pub open spec fn wf(&self) -> bool {
        tree_wf(self@)
    }

    /// A disk with nothing on it but the top directory.
    pub fn new() -> (r: Disk)
        ensures
            r.wf(),
            r@ == Tree::empty(),
    {
        let r = Disk { entries: Vec::new() };
        assert(r@ =~= Tree::empty());
        r
    }

    /// The place of the entry at `p`, if there is one.
    fn find(&self, p: &Vec<String>) -> (r: Option<usize>)
        ensures
            match r {
                Some(i) => i < self@.len() && self@[i as int].0 == path_of(p@),
                None => !has_key(self@, path_of(p@)),
            },
    {
        let mut i: usize = 0;
        while i < self.entries.len()
            invariant
                i <= self.entries@.len(),
                forall|j: int| 0 <= j < i ==> (#[trigger] self@[j]).0 != path_of(p@),
            decreases self.entries@.len() - i,
        {
            if same_path(&self.entries[i].path, p) {
                return Some(i);
            }
            i = i + 1;
        }
        None
    }

    /// What stands at `p`: nothing, a directory or a file.
    fn kind(&self, p: &Vec<String>) -> (r: Kind)
        requires
            self.wf(),
        ensures
            r is Missing <==> !present(self@, path_of(p@)),
            r is Dir <==> is_dir(self@, path_of(p@)),
            r is File <==> is_file(self@, path_of(p@)),
    {
        proof {
            lemma_nodes_keys(self@);
        }
        if p.len() == 0 {
            assert(!nodes(self@).contains_key(path_of(p@))) by {
                if has_key(self@, path_of(p@)) {
                    let i = choose|i: int|
                        0 <= i < self@.len() && (#[trigger] self@[i]).0 == path_of(p@);
                    assert(self@[i].0.len() > 0);
                }
            }
            return Kind::Dir;
        }
        match self.find(p) {
            None => Kind::Missing,
            Some(i) => {
                proof {
                    lemma_to_map_at(self@, i as int);
                }
                match self.entries[i].text {
                    Some(_) => Kind::File,
                    None => Kind::Dir,
                }
            },
        }
    }

    /// Whether anything stands at `p`.
    pub fn is_present(&self, p: &Vec<String>) -> (r: bool)
        requires
            self.wf(),
        ensures
            r == present(self@, path_of(p@)),
    {
        match self.kind(p) {
            Kind::Missing => false,
            _ => true,
        }
    }

    /// Reads the text of the file at `p`.
    pub fn read_to_string(&self, p: &Vec<String>) -> (r: Result<String, FsError>)
        requires
            self.wf(),
        ensures
            match r {
                Ok(text) => read_to_string(self@, path_of(p@)) == Ok::<Seq<char>, FsError>(text@),
                Err(e) => read_to_string(self@, path_of(p@)) == Err::<Seq<char>, FsError>(e),
            },
    {
        proof {
            lemma_nodes_keys(self@);
        }
        if p.len() == 0 {
            return Err(FsError::IsADirectory);
        }
        match self.find(p) {
            None => Err(FsError::NotFound),
            Some(i) => {
                proof {
                    lemma_to_map_at(self@, i as int);
                }
                match &self.entries[i].text {
                    Some(s) => Ok(s.clone()),
                    None => Err(FsError::IsADirectory),
                }
            },
        }
    }

    /// Lists the names in the directory at `p`, in the order of creation.
    pub fn read_dir(&self, p: &Vec<String>) -> (r: Result<Vec<String>, FsError>)
        requires
            self.wf(),
        ensures
            match r {
                Ok(names) => read_dir(self@, path_of(p@)) == Ok::<Seq<Seq<char>>, FsError>(
                    path_of(names@),
                ),
                Err(e) => read_dir(self@, path_of(p@)) == Err::<Seq<Seq<char>>, FsError>(e),
            },
    {
        match self.kind(p) {
            Kind::Missing => {
                return Err(FsError::NotFound);
            },
            Kind::File => {
                return Err(FsError::NotADirectory);
            },
            Kind::Dir => {},
        }
        let mut names: Vec<String> = Vec::new();
        let mut i: usize = 0;
        assert(self@.take(0) =~= Tree::empty());
        assert(path_of(names@) =~= listing(self@.take(0), path_of(p@)));
        while i < self.entries.len()
            invariant
                i <= self.entries@.len(),
                self.entries@.len() == self@.len(),
                path_of(names@) == listing(self@.take(i as int), path_of(p@)),
            decreases self.entries@.len() - i,
        {
            let ghost before = path_of(names@);
            proof {
                assert(self@.take(i + 1).drop_last() =~= self@.take(i as int));
                assert(self@.take(i + 1).last() == self@[i as int]);
            }
            if stands_in(&self.entries[i].path, p) {
                let q = &self.entries[i].path;
                names.push(q[q.len() - 1].clone());
                assert(path_of(names@) =~= before.push(path_of(q@).last()));
            }
            i = i + 1;
        }
        assert(self@.take(self@.len() as int) =~= self@);
        Ok(names)
    }

    /// Creates the directory `p` in its parent, which must be there.
    pub fn create_dir(&mut self, p: &Vec<String>) -> (r: Result<(), FsError>)
        requires
            old(self).wf(),
        ensures
            final(self).wf(),
            match r {
                Ok(_) => create_dir(old(self)@, path_of(p@)) == Ok::<Tree, FsError>(final(self)@),
                Err(e) => create_dir(old(self)@, path_of(p@)) == Err::<Tree, FsError>(e)
                    && final(self)@ == old(self)@,
            },
    {
        proof {
            lemma_nodes_keys(self@);
        }
        match self.kind(p) {
            Kind::Missing => {},
            _ => {
                return Err(FsError::AlreadyExists);
            },
        }
        let parent = path_prefix(p, p.len() - 1);
        assert(path_of(p@).take(p@.len() - 1) =~= path_of(p@).drop_last());
        match self.kind(&parent) {
            Kind::Missing => {
                return Err(FsError::NotFound);
            },
            Kind::File => {
                return Err(FsError::NotADirectory);
            },
            Kind::Dir => {},
        }
        let ghost before = self@;
        proof {
            lemma_push_entry(before, path_of(p@), Node::Dir);
        }
        let path = path_prefix(p, p.len());
        assert(path_of(p@).take(p@.len() as int) =~= path_of(p@));
        self.entries.push(Entry { path, text: None });
        assert(self@ =~= before.push((path_of(p@), Node::Dir)));
        Ok(())
    }

    /// Writes `text` to the file `p`, creating the file if it is not there.
    /// The directory that holds it must be there.
    pub fn write_file(&mut self, p: &Vec<String>, text: &str) -> (r: Result<(), FsError>)
        requires
            old(self).wf(),
        ensures
            final(self).wf(),
            match r {
                Ok(_) => write_file(old(self)@, path_of(p@), text@) == Ok::<Tree, FsError>(
                    final(self)@,
                ),
                Err(e) => write_file(old(self)@, path_of(p@), text@) == Err::<Tree, FsError>(e)
                    && final(self)@ == old(self)@,
            },
    {
        proof {
            lemma_nodes_keys(self@);
        }
        match self.kind(p) {
            Kind::Dir => {
                return Err(FsError::IsADirectory);
            },
            _ => {},
        }
        let parent = path_prefix(p, p.len() - 1);
        assert(path_of(p@).take(p@.len() - 1) =~= path_of(p@).drop_last());
        match self.kind(&parent) {
            Kind::Missing => {
                return Err(FsError::NotFound);
            },
            Kind::File => {
                return Err(FsError::NotADirectory);
            },
            Kind::Dir => {},
        }
        let ghost before = self@;
        let path = path_prefix(p, p.len());
        assert(path_of(p@).take(p@.len() as int) =~= path_of(p@));
        match self.find(p) {
            Some(i) => {
                proof {
                    lemma_to_map_at(before, i as int);
                    lemma_update_file(before, path_of(p@), text@);
                }
                self.entries.set(i, Entry { path, text: Some(text.to_owned()) });
                assert(self@ =~= before.update(i as int, (path_of(p@), Node::File(text@))));
            },
            None => {
                proof {
                    lemma_push_entry(before, path_of(p@), Node::File(text@));
                }
                self.entries.push(Entry { path, text: Some(text.to_owned()) });
                assert(self@ =~= before.push((path_of(p@), Node::File(text@))));
            },
        }
        Ok(())
    }

    /// Removes the file `p`.
    pub fn remove_file(&mut self, p: &Vec<String>) -> (r: Result<(), FsError>)
        requires
            old(self).wf(),
        ensures
            final(self).wf(),
            match r {
                Ok(_) => remove_file(old(self)@, path_of(p@)) == Ok::<Tree, FsError>(final(self)@),
                Err(e) => remove_file(old(self)@, path_of(p@)) == Err::<Tree, FsError>(e)
                    && final(self)@ == old(self)@,
            },
    {
        proof {
            lemma_nodes_keys(self@);
        }
        match self.kind(p) {
            Kind::Missing => {
                return Err(FsError::NotFound);
            },
            Kind::Dir => {
                return Err(FsError::IsADirectory);
            },
            Kind::File => {},
        }
        let ghost before = self@;
        match self.find(p) {
            Some(i) => {
                proof {
                    lemma_to_map_at(before, i as int);
                    lemma_remove_entry(before, path_of(p@));
                }
                self.entries.remove(i);
                assert(self@ =~= before.remove(i as int));
                Ok(())
            },
            None => Err(FsError::NotFound),
        }
    }

    /// Creates the directory `p` and every directory on the way to it that
    /// is missing. Nothing changes if a file stands on the way.
    pub fn create_dir_all(&mut self, p: &Vec<String>) -> (r: Result<(), FsError>)
        requires
            old(self).wf(),
        ensures
            final(self).wf(),
            match r {
                Ok(_) => create_dir_all(old(self)@, path_of(p@)) == Ok::<Tree, FsError>(
                    final(self)@,
                ),
                Err(e) => create_dir_all(old(self)@, path_of(p@)) == Err::<Tree, FsError>(e)
                    && final(self)@ == old(self)@,
            },
    {
        let ghost whole = path_of(p@);
        let ghost before = self@;
        let mut k: usize = 0;
        while k < p.len()
            invariant
                k <= p@.len(),
                self.wf(),
                self@ == before,
                whole == path_of(p@),
                forall|j: int| 1 <= j <= k ==> !is_file(before, #[trigger] whole.take(j)),
            decreases p@.len() - k,
        {
            let prefix = path_prefix(p, k + 1);
            match self.kind(&prefix) {
                Kind::File => {
                    assert(is_file(before, whole.take(k + 1)));
                    return Err(FsError::NotADirectory);
                },
                _ => {},
            }
            k = k + 1;
        }
        assert(!file_on_way(before, whole));
        let mut k: usize = 0;
        assert(whole.take(0) =~= Path::empty());
        while k < p.len()
            invariant
                k <= p@.len(),
                whole == path_of(p@),
                tree_wf(before),
                !file_on_way(before, whole),
                self@ == with_dirs(before, whole.take(k as int)),
            decreases p@.len() - k,
        {
            let ghost here = whole.take(k as int);
            let ghost next = whole.take(k + 1);
            proof {
                assert forall|j: int| 1 <= j <= here.len() implies !is_file(
                    before,
                    #[trigger] here.take(j),
                ) by {
                    assert(here.take(j) =~= whole.take(j));
                }
                crate::tree::lemma_with_dirs(before, here);
                assert(next.drop_last() =~= here);
            }
            let prefix = path_prefix(p, k + 1);
            match self.find(&prefix) {
                Some(_) => {},
                None => {
                    let ghost cur = self@;
                    proof {
                        lemma_push_entry(cur, next, Node::Dir);
                    }
                    self.entries.push(Entry { path: prefix, text: None });
                    assert(self@ =~= cur.push((next, Node::Dir)));
                },
            }
            k = k + 1;
        }
        proof {
            assert(whole.take(p@.len() as int) =~= whole);
            crate::tree::lemma_with_dirs(before, whole);
        }
        Ok(())
    }
}

} // verus!
