//! Locating pressure files in an in-memory image of the cgroup tree.
//!
//! The walk descends depth first. A node whose name ends in `.mount`,
//! `.socket` or `.scope` is a delegation boundary: it is pruned together
//! with its whole subtree. Among the remaining nodes, files whose name ends
//! in `.pressure` are yielded as candidates, each with the service path of
//! its directory and the controller name (the file name with the suffix
//! stripped).

use vstd::prelude::*;

verus! {

/// One node of the tree image. A file carries its content, or `None` when
/// it could not be read (the walk then skips it later, never fails).
pub enum FsTree {
    File { name: Vec<u8>, content: Option<Vec<u8>> },
    Dir { name: Vec<u8>, children: Vec<FsTree> },
}

/// A located pressure file: the service path of its directory, the
/// controller name, and the file content as read.
pub struct Candidate {
    pub service: Vec<u8>,
    pub controller: Vec<u8>,
    pub content: Option<Vec<u8>>,
}

/// The mathematical image of a candidate.
pub struct CandidateView {
    pub service: Seq<u8>,
    pub controller: Seq<u8>,
    pub content: Option<Seq<u8>>,
}

impl View for Candidate {
    type V = CandidateView;

    open spec fn view(&self) -> CandidateView {
        CandidateView {
            service: self.service@,
            controller: self.controller@,
            content: if self.content is Some {
                Some(self.content->0@)
            } else {
                None
            },
        }
    }
}

pub open spec fn cand_views(s: Seq<Candidate>) -> Seq<CandidateView> {
    s.map_values(|c: Candidate| c@)
}

pub open spec fn suffix_ends(s: Seq<u8>, suf: Seq<u8>) -> bool {
    s.len() >= suf.len() && s.skip(s.len() - suf.len()) == suf
}

/// The bytes of `.mount`.
pub open spec fn suf_mount() -> Seq<u8> {
    seq![46u8, 109, 111, 117, 110, 116]
}

/// The bytes of `.socket`.
pub open spec fn suf_socket() -> Seq<u8> {
    seq![46u8, 115, 111, 99, 107, 101, 116]
}

/// The bytes of `.scope`.
pub open spec fn suf_scope() -> Seq<u8> {
    seq![46u8, 115, 99, 111, 112, 101]
}

/// The bytes of `.pressure`.
pub open spec fn suf_pressure() -> Seq<u8> {
    seq![46u8, 112, 114, 101, 115, 115, 117, 114, 101]
}

/// A node worth descending into or yielding: not a delegation boundary.
pub open spec fn spec_interesting(name: Seq<u8>) -> bool {
    !suffix_ends(name, suf_mount()) && !suffix_ends(name, suf_socket()) && !suffix_ends(
        name,
        suf_scope(),
    )
}

/// A pressure file by name.
pub open spec fn spec_pressure(name: Seq<u8>) -> bool {
    suffix_ends(name, suf_pressure())
}

/// Whether `s` ends with `suf`.
pub fn slice_ends_with(s: &[u8], suf: &[u8]) -> (r: bool)
    ensures
        r == suffix_ends(s@, suf@),
{
    if s.len() < suf.len() {
        return false;
    }
    let n = s.len();
    let sl = suf.len();
    let off = n - sl;
    let mut k: usize = 0;
    while k < sl
        invariant
            n == s@.len(),
            sl == suf@.len(),
            n >= sl,
            off == n - sl,
            k <= sl,
            forall|m: int| 0 <= m < k ==> s@[off + m] == suf@[m],
        decreases suf@.len() - k,
    {
        if s[off + k] != suf[k] {
            assert(s@.skip(off as int)[k as int] != suf@[k as int]);
            return false;
        }
        k = k + 1;
    }
    assert(s@.skip(off as int) =~= suf@);
    true
}

fn suffix_mount() -> (v: Vec<u8>)
    ensures
        v@ == suf_mount(),
{
    let mut v: Vec<u8> = Vec::new();
    v.push(46);
    v.push(109);
    v.push(111);
    v.push(117);
    v.push(110);
    v.push(116);
    assert(v@ =~= suf_mount());
    v
}

fn suffix_socket() -> (v: Vec<u8>)
    ensures
        v@ == suf_socket(),
{
    let mut v: Vec<u8> = Vec::new();
    v.push(46);
    v.push(115);
    v.push(111);
    v.push(99);
    v.push(107);
    v.push(101);
    v.push(116);
    assert(v@ =~= suf_socket());
    v
}

fn suffix_scope() -> (v: Vec<u8>)
    ensures
        v@ == suf_scope(),
{
    let mut v: Vec<u8> = Vec::new();
    v.push(46);
    v.push(115);
    v.push(99);
    v.push(111);
    v.push(112);
    v.push(101);
    assert(v@ =~= suf_scope());
    v
}

fn suffix_pressure() -> (v: Vec<u8>)
    ensures
        v@ == suf_pressure(),
{
    let mut v: Vec<u8> = Vec::new();
    v.push(46);
    v.push(112);
    v.push(114);
    v.push(101);
    v.push(115);
    v.push(115);
    v.push(117);
    v.push(114);
    v.push(101);
    assert(v@ =~= suf_pressure());
    v
}

/// Whether an entry of this name is kept by the walk.
pub fn is_interesting(name: &[u8]) -> (r: bool)
    ensures
        r == spec_interesting(name@),
{
    let m = suffix_mount();
    let s = suffix_socket();
    let c = suffix_scope();
    !(slice_ends_with(name, m.as_slice()) || slice_ends_with(name, s.as_slice())
        || slice_ends_with(name, c.as_slice()))
}

/// Whether an entry of this name is a pressure file.
pub fn is_pressure(name: &[u8]) -> (r: bool)
    ensures
        r == spec_pressure(name@),
{
    let p = suffix_pressure();
    slice_ends_with(name, p.as_slice())
}

pub open spec fn tree_name(t: FsTree) -> Seq<u8> {
    match t {
        FsTree::File { name, .. } => name@,
        FsTree::Dir { name, .. } => name@,
    }
}

/// The service path of a file lying in the directory whose prefix is `p`:
/// the root directory itself is the service `/`.
pub open spec fn file_service(p: Seq<u8>) -> Seq<u8> {
    if p.len() == 0 {
        seq![47u8]
    } else {
        p
    }
}

/// The prefix of entries below the directory `name` under prefix `p`.
pub open spec fn child_prefix(p: Seq<u8>, name: Seq<u8>) -> Seq<u8> {
    p + seq![47u8] + name
}

/// The controller named by a pressure file: the name without `.pressure`.
pub open spec fn controller_of(name: Seq<u8>) -> Seq<u8> {
    name.take(name.len() - 9)
}

/// What the walk yields below one node whose directory has prefix `p`.
/// A pruned node contributes nothing, subtree included.
pub open spec fn spec_walk(p: Seq<u8>, t: FsTree) -> Seq<CandidateView>
    decreases t, 0int,
{
    if !spec_interesting(tree_name(t)) {
        Seq::empty()
    } else {
        match t {
            FsTree::File { name, content } => {
                if spec_pressure(name@) {
                    seq![
                        CandidateView {
                            service: file_service(p),
                            controller: controller_of(name@),
                            content: if content is Some {
                                Some(content->0@)
                            } else {
                                None
                            },
                        },
                    ]
                } else {
                    Seq::empty()
                }
            },
            FsTree::Dir { name, children } => {
                spec_walk_children(child_prefix(p, name@), children@, 0)
            },
        }
    }
}

/// What the walk yields for the children `cs[i..]` of a directory with
/// prefix `p`.
pub open spec fn spec_walk_children(p: Seq<u8>, cs: Seq<FsTree>, i: int) -> Seq<CandidateView>
    decreases cs, (if i < cs.len() { cs.len() - i } else { 0 }),
{
    if i < 0 || i >= cs.len() {
        Seq::empty()
    } else {
        spec_walk(p, cs[i]) + spec_walk_children(p, cs, i + 1)
    }
}

/// What locating yields for a whole mountpoint: its own name never enters
/// the service paths, but a boundary name still prunes everything.
pub open spec fn spec_locate(root: FsTree) -> Seq<CandidateView> {
    if !spec_interesting(tree_name(root)) {
        Seq::empty()
    } else {
        match root {
            FsTree::File { .. } => spec_walk(Seq::empty(), root),
            FsTree::Dir { children, .. } => spec_walk_children(Seq::empty(), children@, 0),
        }
    }
}

/// Appends the candidates found below `t` to `out`.
fn walk_node(p: &Vec<u8>, t: &FsTree, out: &mut Vec<Candidate>)
    ensures
        cand_views(final(out)@) == cand_views(old(out)@) + spec_walk(p@, *t),
    decreases *t,
{
    match t {
        FsTree::File { name, content } => {
            if is_interesting(name.as_slice()) && is_pressure(name.as_slice()) {
                let c = Candidate {
                    service: if p.len() == 0 {
                        let mut v: Vec<u8> = Vec::new();
                        v.push(47);
                        assert(v@ =~= file_service(p@));
                        v
                    } else {
                        p.clone()
                    },
                    controller: {
                        let mut n = name.clone();
                        n.truncate(name.len() - 9);
                        assert(n@ =~= controller_of(name@));
                        n
                    },
                    content: match content {
                        Some(b) => Some(b.clone()),
                        None => None,
                    },
                };
                out.push(c);
                assert(cand_views(out@) =~= cand_views(old(out)@) + spec_walk(p@, *t));
            } else {
                assert(cand_views(out@) =~= cand_views(old(out)@) + spec_walk(p@, *t));
            }
        },
        FsTree::Dir { name, children } => {
            if is_interesting(name.as_slice()) {
                let mut p2 = p.clone();
                p2.push(47);
                let mut nc = name.clone();
                p2.append(&mut nc);
                assert(p2@ =~= child_prefix(p@, name@));
                let mut k: usize = 0;
                while k < children.len()
                    invariant
                        p2@ == child_prefix(p@, name@),
                        k <= children@.len(),
                        cand_views(out@) + spec_walk_children(p2@, children@, k as int)
                            == cand_views(old(out)@) + spec_walk_children(p2@, children@, 0),
                        spec_interesting(tree_name(*t)),
                        (*t == (FsTree::Dir { name: *name, children: *children })),
                    decreases children@.len() - k,
                {
                    proof {
                        assert(t->Dir_children == *children);
                        assert(decreases_to!(*t => t->Dir_children@[k as int]));
                        assert(decreases_to!(*t => children@[k as int]));
                    }
                    walk_node(&p2, &children[k], out);
                    k = k + 1;
                }
                assert(spec_walk_children(p2@, children@, k as int) == Seq::<
                    CandidateView,
                >::empty());
                assert(cand_views(out@) =~= cand_views(old(out)@) + spec_walk(p@, *t));
            } else {
                assert(cand_views(out@) =~= cand_views(old(out)@) + spec_walk(p@, *t));
            }
        },
    }
}

/// Locates all pressure files below a mountpoint image, depth first, with
/// boundary subtrees pruned before descent.
pub fn locate(root: &FsTree) -> (r: Vec<Candidate>)
    ensures
        cand_views(r@) == spec_locate(*root),
{
    let mut out: Vec<Candidate> = Vec::new();
    match root {
        FsTree::File { .. } => {
            let empty: Vec<u8> = Vec::new();
            walk_node(&empty, root, &mut out);
            assert(cand_views(out@) =~= spec_locate(*root));
        },
        FsTree::Dir { name, children } => {
            if is_interesting(name.as_slice()) {
                let empty: Vec<u8> = Vec::new();
                let mut k: usize = 0;
                while k < children.len()
                    invariant
                        empty@ == Seq::<u8>::empty(),
                        k <= children@.len(),
                        cand_views(out@) + spec_walk_children(Seq::empty(), children@, k as int)
                            == spec_walk_children(Seq::empty(), children@, 0),
                        (*root == (FsTree::Dir { name: *name, children: *children })),
                    decreases children@.len() - k,
                {
                    proof {
                        assert(root->Dir_children == *children);
                        assert(decreases_to!(*root => root->Dir_children@[k as int]));
                        assert(decreases_to!(*root => children@[k as int]));
                    }
                    walk_node(&empty, &children[k], &mut out);
                    k = k + 1;
                }
            }
            assert(cand_views(out@) =~= spec_locate(*root));
        },
    }
    out
}

} // verus!
