//! Branches: named pointers to commits, and `HEAD`, which names the branch
//! that is checked out.

use crate::bytes::{append, copy, copy_range, same_bytes, starts_with};
use crate::error::Error;
use vstd::prelude::*;

verus! {

/// A branch: its name and the hash of the commit it points at.
#[derive(Clone, PartialEq, Eq, Debug)]
pub struct Branch {
    pub name: Vec<u8>,
    pub commit: Vec<u8>,
}

/// A branch as a mathematical value.
pub struct BranchView {
    pub name: Seq<u8>,
    pub commit: Seq<u8>,
}

impl View for Branch {
    type V = BranchView;

    open spec fn view(&self) -> BranchView {
        BranchView { name: self.name@, commit: self.commit@ }
    }
}

/// The branches of a repository and the name of the one checked out.
pub struct RefsView {
    pub head: Seq<u8>,
    pub branches: Seq<BranchView>,
}

/// What `HEAD` holds before the name of the branch: `refs/heads/`.
pub open spec fn head_prefix() -> Seq<u8> {
    seq![0x72u8, 0x65, 0x66, 0x73, 0x2f, 0x68, 0x65, 0x61, 0x64, 0x73, 0x2f]
}

/// The name of the branch that a new repository is on: `master`.
pub open spec fn first_branch() -> Seq<u8> {
    seq![0x6du8, 0x61, 0x73, 0x74, 0x65, 0x72]
}

/// What `HEAD` holds when the branch `name` is checked out.
pub open spec fn head_text(name: Seq<u8>) -> Seq<u8> {
    head_prefix() + name
}

/// The branch that a text of `HEAD` names: what follows `refs/heads/`, if
/// the text starts so and something follows.
pub open spec fn head_branch(text: Seq<u8>) -> Option<Seq<u8>> {
    if head_prefix().is_prefix_of(text) && text.len() > head_prefix().len() {
        Some(text.skip(head_prefix().len() as int))
    } else {
        None
    }
}

/// Where the branch `name` stands among `s`, or the length of `s` if it
/// is not among them.
pub open spec fn branch_position(s: Seq<BranchView>, name: Seq<u8>) -> int
    decreases s.len(),
{
    if s.len() == 0 {
        0
    } else if s.first().name == name {
        0
    } else {
        1 + branch_position(s.drop_first(), name)
    }
}

/// Whether `s` holds a branch `name`.
pub open spec fn has_branch(s: Seq<BranchView>, name: Seq<u8>) -> bool {
    branch_position(s, name) < s.len()
}

/// The commit that the branch `name` points at, if there is such a branch.
pub open spec fn commit_of(s: Seq<BranchView>, name: Seq<u8>) -> Option<Seq<u8>> {
    if has_branch(s, name) {
        Some(s[branch_position(s, name)].commit)
    } else {
        None
    }
}

/// The branches after `name` was pointed at `commit`: moved if it was
/// there, added at the end if not.
pub open spec fn pointed(s: Seq<BranchView>, name: Seq<u8>, commit: Seq<u8>) -> Seq<BranchView> {
    if has_branch(s, name) {
        s.update(branch_position(s, name), BranchView { name, commit })
    } else {
        s.push(BranchView { name, commit })
    }
}

/// No two branches have the same name.
pub open spec fn distinct_names(s: Seq<BranchView>) -> bool {
    forall|i: int, j: int| 0 <= i < j < s.len() ==> (#[trigger] s[i]).name != (#[trigger] s[j]).name
}

/// The position of a branch is the first place that holds its name.
pub proof fn lemma_branch_position(s: Seq<BranchView>, name: Seq<u8>)
    ensures
        0 <= branch_position(s, name) <= s.len(),
        has_branch(s, name) ==> s[branch_position(s, name)].name == name,
        forall|j: int| 0 <= j < branch_position(s, name) ==> (#[trigger] s[j]).name != name,
    decreases s.len(),
{
    if s.len() > 0 && s.first().name != name {
        let t = s.drop_first();
        lemma_branch_position(t, name);
        assert forall|j: int| 0 <= j < branch_position(s, name) implies (#[trigger] s[j]).name
            != name by {
            if j > 0 {
                assert(s[j] == t[j - 1]);
            }
        }
    }
}

/// A place that holds the name, with no such place before it, is the
/// position of the branch.
pub proof fn lemma_branch_position_is(s: Seq<BranchView>, name: Seq<u8>, k: int)
    requires
        0 <= k <= s.len(),
        k < s.len() ==> s[k].name == name,
        forall|j: int| 0 <= j < k ==> (#[trigger] s[j]).name != name,
    ensures
        branch_position(s, name) == k,
{
    lemma_branch_position(s, name);
    let p = branch_position(s, name);
    if p < k {
        assert(s[p].name == name);
    }
}

/// Pointing a branch at a commit: afterwards it points there, every other
/// branch points where it did, and the names stay distinct.
pub proof fn lemma_pointed(s: Seq<BranchView>, name: Seq<u8>, commit: Seq<u8>, other: Seq<u8>)
    ensures
        commit_of(pointed(s, name, commit), name) == Some(commit),
        other != name ==> commit_of(pointed(s, name, commit), other) == commit_of(s, other),
        distinct_names(s) ==> distinct_names(pointed(s, name, commit)),
{
    let t = pointed(s, name, commit);
    let k = branch_position(s, name);
    lemma_branch_position(s, name);
    lemma_branch_position(s, other);
    assert(t[k].name == name);
    assert forall|j: int| 0 <= j < k implies (#[trigger] t[j]).name != name by {
        assert(t[j] == s[j]);
    }
    lemma_branch_position_is(t, name, k);
    if other != name {
        let p = branch_position(s, other);
        assert forall|j: int| 0 <= j < p implies (#[trigger] t[j]).name != other by {
            if j != k {
                assert(t[j] == s[j]);
            }
        }
        if p < s.len() {
            assert(t[p] == s[p]);
            lemma_branch_position_is(t, other, p);
        } else {
            lemma_branch_position_is(t, other, t.len() as int);
        }
    }
    if distinct_names(s) {
        assert forall|i: int, j: int| 0 <= i < j < t.len() implies (#[trigger] t[i]).name != (
        #[trigger] t[j]).name by {
            if has_branch(s, name) {
                assert(t[i].name == s[i].name && t[j].name == s[j].name);
            } else if j == s.len() {
                assert(t[i] == s[i]);
            }
        }
    }
}

/// The branches of a repository.
pub struct Refs {
    head: Vec<u8>,
    branches: Vec<Branch>,
}

impl View for Refs {
    type V = RefsView;

    closed spec fn view(&self) -> RefsView {
        RefsView { head: self.head@, branches: self.branches@.map_values(|b: Branch| b@) }
    }
}

/// Writes what `HEAD` holds when the branch `name` is checked out.
pub fn write_head(name: &[u8]) -> (text: Vec<u8>)
    ensures
        text@ == head_text(name@),
{
    let prefix: [u8; 11] = [0x72, 0x65, 0x66, 0x73, 0x2f, 0x68, 0x65, 0x61, 0x64, 0x73, 0x2f];
    let mut text: Vec<u8> = Vec::new();
    append(&mut text, prefix.as_slice());
    assert(text@ =~= head_prefix());
    append(&mut text, name);
    text
}

/// Reads the name of the branch that is checked out from the text of
/// `HEAD`. A text that names no branch is refused with
/// `BranchHeadUnreadable`.
pub fn read_head(text: &[u8]) -> (name: Result<Vec<u8>, Error>)
    ensures
        match name {
            Ok(n) => head_branch(text@) == Some(n@),
            Err(e) => e == Error::BranchHeadUnreadable && head_branch(text@) is None,
        },
{
    let prefix: [u8; 11] = [0x72, 0x65, 0x66, 0x73, 0x2f, 0x68, 0x65, 0x61, 0x64, 0x73, 0x2f];
    assert(prefix@ =~= head_prefix());
    if starts_with(text, prefix.as_slice()) && text.len() > 11 {
        let name = copy_range(text, 11, text.len());
        assert(name@ =~= text@.skip(11));
        Ok(name)
    } else {
        Err(Error::BranchHeadUnreadable)
    }
}

impl Refs {
    /// The invariant of the branches: no name occurs twice.
    pub open spec fn wf(&self) -> bool {
        distinct_names(self@.branches)
    }

    /// The branches of a new repository: `master` is checked out, and no
    /// branch points anywhere yet.
    pub fn new() -> (refs: Refs)
        ensures
            refs@.head == first_branch(),
            refs@.branches == Seq::<BranchView>::empty(),
            refs.wf(),
    {
        let mut head: Vec<u8> = Vec::new();
        head.push(0x6d);
        head.push(0x61);
        head.push(0x73);
        head.push(0x74);
        head.push(0x65);
        head.push(0x72);
        assert(head@ =~= first_branch());
        let refs = Refs { head, branches: Vec::new() };
        assert(refs@.branches =~= Seq::<BranchView>::empty());
        refs
    }

    /// The branches of a repository whose `HEAD` holds `text`, with no
    /// branch pointing anywhere yet.
    pub fn from_head(text: &[u8]) -> (refs: Result<Refs, Error>)
        ensures
            match refs {
                Ok(r) => head_branch(text@) == Some(r@.head) && r@.branches == Seq::<
                    BranchView,
                >::empty() && r.wf(),
                Err(e) => e == Error::BranchHeadUnreadable && head_branch(text@) is None,
            },
    {
        match read_head(text) {
            Ok(head) => {
                let refs = Refs { head, branches: Vec::new() };
                assert(refs@.branches =~= Seq::<BranchView>::empty());
                Ok(refs)
            },
            Err(e) => Err(e),
        }
    }

    /// The name of the branch that is checked out.
    pub fn head(&self) -> (name: &Vec<u8>)
        ensures
            name@ == self@.head,
    {
        &self.head
    }

    /// The number of branches.
    pub fn len(&self) -> (n: usize)
        ensures
            n == self@.branches.len(),
    {
        self.branches.len()
    }

    /// The branch at position `i`.
    pub fn get(&self, i: usize) -> (branch: &Branch)
        requires
            i < self@.branches.len(),
        ensures
            branch@ == self@.branches[i as int],
    {
        &self.branches[i]
    }

    /// Where the branch `name` stands, or the number of branches if there
    /// is none of that name.
    pub fn position(&self, name: &[u8]) -> (at: usize)
        ensures
            at == branch_position(self@.branches, name@),
    {
        let mut i: usize = 0;
        while i < self.branches.len()
            invariant
                i <= self.branches@.len(),
                self@.branches.len() == self.branches@.len(),
                forall|j: int| 0 <= j < i ==> (#[trigger] self@.branches[j]).name != name@,
            decreases self.branches.len() - i,
        {
            if same_bytes(self.branches[i].name.as_slice(), name) {
                proof {
                    assert(self@.branches[i as int].name == name@);
                    lemma_branch_position_is(self@.branches, name@, i as int);
                }
                return i;
            }
            i += 1;
        }
        proof {
            lemma_branch_position_is(self@.branches, name@, i as int);
        }
        i
    }

    /// The commit that the branch `name` points at.
    pub fn commit_of(&self, name: &[u8]) -> (commit: Option<&Vec<u8>>)
        ensures
            match commit {
                Some(c) => commit_of(self@.branches, name@) == Some(c@),
                None => commit_of(self@.branches, name@) is None,
            },
    {
        let at = self.position(name);
        if at < self.branches.len() {
            Some(&self.branches[at].commit)
        } else {
            None
        }
    }

    /// Points the branch `name` at `commit`. A branch that is not there
    /// yet is added.
    pub fn point(&mut self, name: &[u8], commit: &[u8])
        requires
            old(self).wf(),
        ensures
            final(self).wf(),
            final(self)@.head == old(self)@.head,
            final(self)@.branches == pointed(old(self)@.branches, name@, commit@),
    {
        let at = self.position(name);
        let ghost before = self@.branches;
        proof {
            lemma_pointed(before, name@, commit@, name@);
        }
        let branch = Branch { name: copy(name), commit: copy(commit) };
        if at < self.branches.len() {
            self.branches.set(at, branch);
            assert(self@.branches =~= before.update(at as int, branch@));
        } else {
            self.branches.push(branch);
            assert(self@.branches =~= before.push(branch@));
        }
    }
}

/// A line of the list of branches: a name, and whether this branch is the
/// one checked out.
#[derive(Clone, PartialEq, Eq, Debug)]
pub struct Listing {
    pub name: Vec<u8>,
    pub current: bool,
}

/// Makes the branch `name`, pointing at the commit that the branch checked
/// out points at. Fails with `BranchAlreadyExists` if there is a branch of
/// that name, and with `BranchHeadUnreadable` if the branch checked out
/// points nowhere yet. A failure changes nothing.
pub fn branch_create(refs: &mut Refs, name: &[u8]) -> (outcome: Result<(), Error>)
    requires
        old(refs).wf(),
    ensures
        final(refs).wf(),
        final(refs)@.head == old(refs)@.head,
        has_branch(old(refs)@.branches, name@) ==> outcome == Err::<(), Error>(
            Error::BranchAlreadyExists,
        ) && final(refs)@ == old(refs)@,
        !has_branch(old(refs)@.branches, name@) && commit_of(
            old(refs)@.branches,
            old(refs)@.head,
        ) is None ==> outcome == Err::<(), Error>(Error::BranchHeadUnreadable) && final(refs)@
            == old(refs)@,
        !has_branch(old(refs)@.branches, name@) && commit_of(
            old(refs)@.branches,
            old(refs)@.head,
        ) is Some ==> outcome is Ok && final(refs)@.branches == old(refs)@.branches.push(
            BranchView {
                name: name@,
                commit: commit_of(old(refs)@.branches, old(refs)@.head)->0,
            },
        ),
{
    if refs.position(name) < refs.branches.len() {
        return Err(Error::BranchAlreadyExists);
    }
    let at = refs.position(refs.head.as_slice());
    if at >= refs.branches.len() {
        return Err(Error::BranchHeadUnreadable);
    }
    let ghost before = refs@.branches;
    let branch = Branch { name: copy(name), commit: copy(refs.branches[at].commit.as_slice()) };
    refs.branches.push(branch);
    proof {
        assert(refs@.branches =~= before.push(branch@));
        lemma_pointed(before, name@, branch@.commit, name@);
        assert(refs@.branches == pointed(before, name@, branch@.commit));
    }
    Ok(())
}

/// Lists the branches in their order, each with a mark that tells whether
/// it is the one checked out.
pub fn branch_check(refs: &Refs) -> (list: Vec<Listing>)
    ensures
        list@.len() == refs@.branches.len(),
        forall|i: int|
            0 <= i < list@.len() ==> (#[trigger] list@[i]).name@ == refs@.branches[i].name
                && list@[i].current == (refs@.branches[i].name == refs@.head),
{
    let mut list: Vec<Listing> = Vec::new();
    let mut i: usize = 0;
    while i < refs.branches.len()
        invariant
            i <= refs.branches@.len(),
            refs@.branches.len() == refs.branches@.len(),
            list@.len() == i,
            forall|k: int|
                0 <= k < i ==> (#[trigger] list@[k]).name@ == refs@.branches[k].name
                    && list@[k].current == (refs@.branches[k].name == refs@.head),
        decreases refs.branches.len() - i,
    {
        let branch = &refs.branches[i];
        assert(refs@.branches[i as int].name == branch.name@);
        let current = same_bytes(branch.name.as_slice(), refs.head.as_slice());
        list.push(Listing { name: copy(branch.name.as_slice()), current });
        i += 1;
    }
    list
}

/// Deletes the branch `name`. Fails with `CannotDeleteCurrentBranch` if
/// it is the one checked out, and with `BranchNotFound` if there is no
/// branch of that name. A failure changes nothing.
pub fn branch_delete(refs: &mut Refs, name: &[u8]) -> (outcome: Result<(), Error>)
    requires
        old(refs).wf(),
    ensures
        final(refs).wf(),
        final(refs)@.head == old(refs)@.head,
        name@ == old(refs)@.head ==> outcome == Err::<(), Error>(
            Error::CannotDeleteCurrentBranch,
        ) && final(refs)@ == old(refs)@,
        name@ != old(refs)@.head && !has_branch(old(refs)@.branches, name@) ==> outcome == Err::<
            (),
            Error,
        >(Error::BranchNotFound) && final(refs)@ == old(refs)@,
        name@ != old(refs)@.head && has_branch(old(refs)@.branches, name@) ==> outcome is Ok
            && final(refs)@.branches == old(refs)@.branches.remove(
            branch_position(old(refs)@.branches, name@),
        ) && !has_branch(final(refs)@.branches, name@),
{
    if same_bytes(name, refs.head.as_slice()) {
        return Err(Error::CannotDeleteCurrentBranch);
    }
    let at = refs.position(name);
    if at >= refs.branches.len() {
        return Err(Error::BranchNotFound);
    }
    let ghost before = refs@.branches;
    refs.branches.remove(at);
    proof {
        let after = refs@.branches;
        assert(after =~= before.remove(at as int));
        lemma_branch_position(before, name@);
        assert forall|i: int, j: int| 0 <= i < j < after.len() implies (#[trigger] after[i]).name
            != (#[trigger] after[j]).name by {
            let si = if i < at { i } else { i + 1 };
            let sj = if j < at { j } else { j + 1 };
            assert(after[i] == before[si] && after[j] == before[sj]);
        }
        assert forall|j: int| 0 <= j < after.len() implies (#[trigger] after[j]).name != name@ by {
            let sj = if j < at { j } else { j + 1 };
            assert(after[j] == before[sj]);
            if sj > at {
                assert(before[at as int].name != before[sj].name);
            }
        }
        lemma_branch_position_is(after, name@, after.len() as int);
    }
    Ok(())
}

} // verus!
