use vstd::prelude::*;
use vstd::string::StringExecFns;
use crate::executor::{exit_code, Counters, RenameOutcome, RenameReport};
use crate::normalizer::decide;
use crate::unicode::{is_norm, nfc_of};

verus! {

/// One entry of a directory tree: its leaf name and what it is.
pub struct FsEntry {
    pub name: String,
    pub node: FsNode,
}

/// A filesystem node. A file (or a symlink to one) has no children; a
/// directory carries its entries, and remembers whether it was reached
/// through a symbolic link, since that governs whether a walk may descend
/// into it.
pub enum FsNode {
    File,
    Dir { via_symlink: bool, children: Vec<FsEntry> },
}

/// The children of a node, empty for a file.
pub open spec fn kids(n: FsNode) -> Seq<FsEntry> {
    match n {
        FsNode::Dir { children, .. } => children@,
        FsNode::File => Seq::empty(),
    }
}

/// Structural equality of nodes up to views: same kind, same link flag,
/// same names and subtrees.
pub open spec fn eq_node(a: FsNode, b: FsNode) -> bool
    decreases a,
{
    match a {
        FsNode::File => b is File,
        FsNode::Dir { via_symlink, children } => match b {
            FsNode::Dir { via_symlink: vb, children: cb } => via_symlink == vb && eq_entries(
                children@,
                cb@,
            ),
            FsNode::File => false,
        },
    }
}

/// Structural equality of entry sequences up to views.
pub open spec fn eq_entries(a: Seq<FsEntry>, b: Seq<FsEntry>) -> bool
    decreases a,
{
    &&& a.len() == b.len()
    &&& forall|i: int|
        0 <= i < a.len() ==> (#[trigger] a[i]).name@ == b[i].name@ && eq_node(a[i].node, b[i].node)
}

/// Every visited name in the subtree below `n` is already in NFC.
pub open spec fn norm_node(n: FsNode, follow: bool) -> bool
    decreases n,
{
    match n {
        FsNode::File => true,
        FsNode::Dir { via_symlink, children } => (!via_symlink || follow) ==> norm_entries(
            children@,
            follow,
        ),
    }
}

/// Every visited name among these entries and their subtrees is in NFC.
pub open spec fn norm_entries(es: Seq<FsEntry>, follow: bool) -> bool
    decreases es,
{
    forall|i: int|
        0 <= i < es.len() ==> is_norm((#[trigger] es[i]).name@) && norm_node(es[i].node, follow)
}

/// How many visited names below `e` still need a rename.
pub open spec fn entry_pending(e: FsEntry, follow: bool) -> nat
    decreases e,
{
    (if !is_norm(e.name@) {
        1nat
    } else {
        0nat
    }) + node_pending(e.node, follow)
}

/// How many visited names in the subtree below `n` still need a rename.
pub open spec fn node_pending(n: FsNode, follow: bool) -> nat
    decreases n,
{
    match n {
        FsNode::File => 0nat,
        FsNode::Dir { via_symlink, children } => if !via_symlink || follow {
            pending(children@, follow)
        } else {
            0nat
        },
    }
}

/// How many visited names among these entries and their subtrees still
/// need a rename: the number of rename attempts one pass makes here.
pub open spec fn pending(es: Seq<FsEntry>, follow: bool) -> nat
    decreases es,
{
    if es.len() == 0 {
        0nat
    } else {
        entry_pending(es[0], follow) + pending(es.drop_first(), follow)
    }
}

/// A directory is stuck when every name still needing a rename has its NFC
/// target already taken by a sibling, here and in every visited subtree.
/// A pass over a stuck tree can rename nothing.
pub open spec fn stuck(es: Seq<FsEntry>, follow: bool) -> bool
    decreases es,
{
    forall|i: int|
        0 <= i < es.len() ==> {
            &&& (!is_norm((#[trigger] es[i]).name@) ==> exists|j: int|
                0 <= j < es.len() && j != i && (#[trigger] es[j]).name@ == nfc_of(es[i].name@))
            &&& stuck_node(es[i].node, follow)
        }
}

/// The subtree below `n` is stuck wherever the walk visits it.
pub open spec fn stuck_node(n: FsNode, follow: bool) -> bool
    decreases n,
{
    match n {
        FsNode::File => true,
        FsNode::Dir { via_symlink, children } => (!via_symlink || follow) ==> stuck(
            children@,
            follow,
        ),
    }
}

/// No two visited siblings normalize to the same name, anywhere in the
/// subtrees. Under this condition a pass renames every non-NFC name.
pub open spec fn no_collisions(es: Seq<FsEntry>, follow: bool) -> bool
    decreases es,
{
    &&& forall|i: int, j: int|
        0 <= i < es.len() && 0 <= j < es.len() && i != j ==> nfc_of(
            (#[trigger] es[i]).name@,
        ) != nfc_of((#[trigger] es[j]).name@)
    &&& forall|i: int| 0 <= i < es.len() ==> no_collisions_node((#[trigger] es[i]).node, follow)
}

/// No collisions anywhere the walk visits below `n`.
pub open spec fn no_collisions_node(n: FsNode, follow: bool) -> bool
    decreases n,
{
    match n {
        FsNode::File => true,
        FsNode::Dir { via_symlink, children } => (!via_symlink || follow) ==> no_collisions(
            children@,
            follow,
        ),
    }
}

/// `res` is the fully normalized form of `orig`: same shape, every visited
/// name composed, unvisited subtrees untouched.
pub open spec fn normalized_version(orig: Seq<FsEntry>, res: Seq<FsEntry>, follow: bool) -> bool
    decreases orig,
{
    &&& res.len() == orig.len()
    &&& forall|i: int|
        0 <= i < orig.len() ==> (#[trigger] res[i]).name@ == nfc_of(orig[i].name@)
            && normalized_version_node(orig[i].node, res[i].node, follow)
}

/// Node-level counterpart of [`normalized_version`].
pub open spec fn normalized_version_node(a: FsNode, b: FsNode, follow: bool) -> bool
    decreases a,
{
    match a {
        FsNode::File => b is File,
        FsNode::Dir { via_symlink, children } => match b {
            FsNode::Dir { via_symlink: vb, children: cb } => via_symlink == vb && if !via_symlink
                || follow {
                normalized_version(children@, cb@, follow)
            } else {
                eq_entries(children@, cb@)
            },
            FsNode::File => false,
        },
    }
}

/// What one executing pass guarantees of each entry: the shape is kept;
/// a name is either left alone or replaced by its NFC form; a name already
/// in NFC is never touched; and a name that was not normalized bears
/// witness to a genuine collision among its siblings.
pub open spec fn pass_post(orig: Seq<FsEntry>, res: Seq<FsEntry>, follow: bool) -> bool
    decreases orig,
{
    &&& res.len() == orig.len()
    &&& forall|i: int|
        0 <= i < orig.len() ==> {
            &&& ((#[trigger] res[i]).name@ == orig[i].name@ || res[i].name@ == nfc_of(
                orig[i].name@,
            ))
            &&& (is_norm(orig[i].name@) ==> res[i].name@ == orig[i].name@)
            &&& (res[i].name@ == nfc_of(orig[i].name@) || exists|j: int|
                0 <= j < orig.len() && j != i && nfc_of((#[trigger] orig[j]).name@) == nfc_of(
                    orig[i].name@,
                ))
            &&& pass_post_node(orig[i].node, res[i].node, follow)
        }
}

/// Node-level counterpart of [`pass_post`].
pub open spec fn pass_post_node(a: FsNode, b: FsNode, follow: bool) -> bool
    decreases a,
{
    match a {
        FsNode::File => b is File,
        FsNode::Dir { via_symlink, children } => match b {
            FsNode::Dir { via_symlink: vb, children: cb } => via_symlink == vb && if !via_symlink
                || follow {
                pass_post(children@, cb@, follow)
            } else {
                eq_entries(children@, cb@)
            },
            FsNode::File => false,
        },
    }
}

/// Structural equality is reflexive.
pub proof fn lemma_eq_node_refl(n: FsNode)
    ensures
        eq_node(n, n),
    decreases n,
{
    match n {
        FsNode::File => {},
        FsNode::Dir { via_symlink, children } => {
            lemma_eq_entries_refl(children@);
        },
    }
}

/// Structural equality is reflexive.
pub proof fn lemma_eq_entries_refl(es: Seq<FsEntry>)
    ensures
        eq_entries(es, es),
    decreases es,
{
    assert forall|i: int| 0 <= i < es.len() implies (#[trigger] es[i]).name@ == es[i].name@
        && eq_node(es[i].node, es[i].node) by {
        lemma_eq_node_refl(es[i].node);
    }
}

/// One pass makes one attempt per pending name, so splitting a directory
/// listing splits its pending count.
pub proof fn lemma_pending_push(es: Seq<FsEntry>, e: FsEntry, follow: bool)
    ensures
        pending(es.push(e), follow) == pending(es, follow) + entry_pending(e, follow),
    decreases es,
{
    if es.len() == 0 {
        assert(es.push(e)[0] == e);
        assert(es.push(e).drop_first() =~= Seq::<FsEntry>::empty());
        assert(pending(Seq::<FsEntry>::empty(), follow) == 0);
        assert(pending(es, follow) == 0);
    } else {
        assert(es.push(e)[0] == es[0]);
        assert(es.push(e).drop_first() =~= es.drop_first().push(e));
        lemma_pending_push(es.drop_first(), e, follow);
    }
}

/// A fully normalized listing leaves nothing pending.
pub proof fn lemma_norm_no_pending(es: Seq<FsEntry>, follow: bool)
    requires
        norm_entries(es, follow),
    ensures
        pending(es, follow) == 0,
    decreases es,
{
    if es.len() > 0 {
        assert(is_norm(es[0].name@) && norm_node(es[0].node, follow));
        lemma_norm_node_no_pending(es[0].node, follow);
        assert(entry_pending(es[0], follow) == 0);
        assert forall|i: int|
            0 <= i < es.drop_first().len() implies is_norm(
            (#[trigger] es.drop_first()[i]).name@,
        ) && norm_node(es.drop_first()[i].node, follow) by {
            assert(es.drop_first()[i] == es[i + 1]);
        }
        lemma_norm_no_pending(es.drop_first(), follow);
    }
}

/// A fully normalized subtree leaves nothing pending.
pub proof fn lemma_norm_node_no_pending(n: FsNode, follow: bool)
    requires
        norm_node(n, follow),
    ensures
        node_pending(n, follow) == 0,
    decreases n,
{
    match n {
        FsNode::File => {},
        FsNode::Dir { via_symlink, children } => {
            if !via_symlink || follow {
                lemma_norm_no_pending(children@, follow);
            }
        },
    }
}

/// A full path: the canonical parent path, a separator, and a leaf name.
pub open spec fn child_path(prefix: Seq<char>, name: Seq<char>) -> Seq<char> {
    prefix + seq!['/'] + name
}

/// The rename attempts one pass makes below `e`, in walk order, as pairs of
/// full old and new paths built from the canonical parent path the way the
/// resolver builds them. Independent of dry-run mode: a dry run reports
/// exactly these, a real run attempts exactly these.
pub open spec fn entry_attempts(prefix: Seq<char>, e: FsEntry, follow: bool) -> Seq<
    (Seq<char>, Seq<char>),
>
    decreases e,
{
    (if !is_norm(e.name@) {
        seq![(child_path(prefix, e.name@), child_path(prefix, nfc_of(e.name@)))]
    } else {
        Seq::empty()
    }) + node_attempts(child_path(prefix, nfc_of(e.name@)), e.node, follow)
}

/// The rename attempts one pass makes in the subtree below `n`.
pub open spec fn node_attempts(prefix: Seq<char>, n: FsNode, follow: bool) -> Seq<
    (Seq<char>, Seq<char>),
>
    decreases n,
{
    match n {
        FsNode::File => Seq::empty(),
        FsNode::Dir { via_symlink, children } => if !via_symlink || follow {
            attempts(prefix, children@, follow)
        } else {
            Seq::empty()
        },
    }
}

/// The rename attempts one pass makes over these entries and their subtrees.
pub open spec fn attempts(prefix: Seq<char>, es: Seq<FsEntry>, follow: bool) -> Seq<
    (Seq<char>, Seq<char>),
>
    decreases es,
{
    if es.len() == 0 {
        Seq::empty()
    } else {
        entry_attempts(prefix, es[0], follow) + attempts(prefix, es.drop_first(), follow)
    }
}

/// The old/new path pairs a sequence of reports carries.
pub open spec fn report_pairs(rs: Seq<RenameReport>) -> Seq<(Seq<char>, Seq<char>)> {
    rs.map_values(|r: RenameReport| (r.old_path@, r.new_path@))
}

/// Walk order splits the attempt list as it splits the listing.
pub proof fn lemma_attempts_push(prefix: Seq<char>, es: Seq<FsEntry>, e: FsEntry, follow: bool)
    ensures
        attempts(prefix, es.push(e), follow) == attempts(prefix, es, follow) + entry_attempts(
            prefix,
            e,
            follow,
        ),
    decreases es,
{
    if es.len() == 0 {
        assert(es.push(e)[0] == e);
        assert(es.push(e).drop_first() =~= Seq::<FsEntry>::empty());
        assert(attempts(prefix, Seq::<FsEntry>::empty(), follow) == Seq::<(Seq<char>, Seq<char>)>::empty());
        assert(attempts(prefix, es, follow) == Seq::<(Seq<char>, Seq<char>)>::empty());
        assert(attempts(prefix, es.push(e), follow) =~= attempts(prefix, es, follow)
            + entry_attempts(prefix, e, follow));
    } else {
        assert(es.push(e)[0] == es[0]);
        assert(es.push(e).drop_first() =~= es.drop_first().push(e));
        lemma_attempts_push(prefix, es.drop_first(), e, follow);
        assert(attempts(prefix, es.push(e), follow) =~= attempts(prefix, es, follow)
            + entry_attempts(prefix, e, follow));
    }
}

/// Mapping reports to pairs distributes over concatenation.
pub proof fn lemma_report_pairs_add(a: Seq<RenameReport>, b: Seq<RenameReport>)
    ensures
        report_pairs(a + b) == report_pairs(a) + report_pairs(b),
{
    assert(report_pairs(a + b) =~= report_pairs(a) + report_pairs(b));
}

/// Two trees structurally equal to a third are structurally equal.
pub proof fn lemma_eq_node_joint(a: FsNode, b: FsNode, c: FsNode)
    requires
        eq_node(a, b),
        eq_node(a, c),
    ensures
        eq_node(b, c),
    decreases a,
{
    match a {
        FsNode::File => {},
        FsNode::Dir { via_symlink: _, children } => {
            match b {
                FsNode::Dir { via_symlink: _, children: cb } => {
                    match c {
                        FsNode::Dir { via_symlink: _, children: cc } => {
                            lemma_eq_entries_joint(children@, cb@, cc@);
                        },
                        FsNode::File => {},
                    }
                },
                FsNode::File => {},
            }
        },
    }
}

/// Two listings structurally equal to a third are structurally equal.
pub proof fn lemma_eq_entries_joint(a: Seq<FsEntry>, b: Seq<FsEntry>, c: Seq<FsEntry>)
    requires
        eq_entries(a, b),
        eq_entries(a, c),
    ensures
        eq_entries(b, c),
    decreases a,
{
    assert forall|i: int| 0 <= i < b.len() implies (#[trigger] b[i]).name@ == c[i].name@ && eq_node(
        b[i].node,
        c[i].node,
    ) by {
        lemma_eq_node_joint(a[i].node, b[i].node, c[i].node);
    }
}

/// Concurrency independence: a tree has one normalized version. Any two
/// runs that fully normalize it -- whatever their concurrency bound, task
/// interleaving or sibling order -- end in structurally equal trees.
pub proof fn lemma_normalized_version_unique(
    orig: Seq<FsEntry>,
    r1: Seq<FsEntry>,
    r2: Seq<FsEntry>,
    follow: bool,
)
    requires
        normalized_version(orig, r1, follow),
        normalized_version(orig, r2, follow),
    ensures
        eq_entries(r1, r2),
    decreases orig,
{
    assert forall|i: int| 0 <= i < r1.len() implies (#[trigger] r1[i]).name@ == r2[i].name@
        && eq_node(r1[i].node, r2[i].node) by {
        lemma_normalized_version_node_unique(orig[i].node, r1[i].node, r2[i].node, follow);
    }
}

/// Node-level counterpart of [`lemma_normalized_version_unique`].
pub proof fn lemma_normalized_version_node_unique(a: FsNode, b1: FsNode, b2: FsNode, follow: bool)
    requires
        normalized_version_node(a, b1, follow),
        normalized_version_node(a, b2, follow),
    ensures
        eq_node(b1, b2),
    decreases a,
{
    match a {
        FsNode::File => {},
        FsNode::Dir { via_symlink, children } => {
            match b1 {
                FsNode::Dir { via_symlink: _, children: c1 } => {
                    match b2 {
                        FsNode::Dir { via_symlink: _, children: c2 } => {
                            if !via_symlink || follow {
                                lemma_normalized_version_unique(children@, c1@, c2@, follow);
                            } else {
                                lemma_eq_entries_joint(children@, c1@, c2@);
                            }
                        },
                        FsNode::File => {},
                    }
                },
                FsNode::File => {},
            }
        },
    }
}

/// Error isolation, sharpened: when no two visited siblings normalize to
/// the same name, the guarantees of one executing pass pin its result to
/// the normalized version of the tree.
pub proof fn lemma_pass_post_no_collisions(orig: Seq<FsEntry>, res: Seq<FsEntry>, follow: bool)
    requires
        pass_post(orig, res, follow),
        no_collisions(orig, follow),
    ensures
        normalized_version(orig, res, follow),
    decreases orig,
{
    assert forall|i: int| 0 <= i < orig.len() implies (#[trigger] res[i]).name@ == nfc_of(
        orig[i].name@,
    ) && normalized_version_node(orig[i].node, res[i].node, follow) by {
        assert(res[i].name@ == nfc_of(orig[i].name@));
        lemma_pass_post_no_collisions_node(orig[i].node, res[i].node, follow);
    }
}

/// Node-level counterpart of [`lemma_pass_post_no_collisions`].
pub proof fn lemma_pass_post_no_collisions_node(a: FsNode, b: FsNode, follow: bool)
    requires
        pass_post_node(a, b, follow),
        no_collisions_node(a, follow),
    ensures
        normalized_version_node(a, b, follow),
    decreases a,
{
    match a {
        FsNode::File => {},
        FsNode::Dir { via_symlink, children } => {
            match b {
                FsNode::Dir { via_symlink: _, children: cb } => {
                    if !via_symlink || follow {
                        lemma_pass_post_no_collisions(children@, cb@, follow);
                    }
                },
                FsNode::File => {},
            }
        },
    }
}

/// Search a directory listing for an entry carrying exactly this name.
fn name_present(v: &Vec<FsEntry>, target: &String) -> (r: bool)
    ensures
        r == exists|j: int| 0 <= j < v@.len() && (#[trigger] v@[j]).name@ == target@,
{
    let mut j: usize = 0;
    while j < v.len()
        invariant
            j <= v@.len(),
            forall|m: int| 0 <= m < j ==> (#[trigger] v@[m]).name@ != target@,
        decreases v@.len() - j,
    {
        if target.eq(&v[j].name) {
            return true;
        }
        j = j + 1;
    }
    false
}

/// Walk one directory listing and normalize every visited name in it and
/// below it, sequentially realizing the concurrent design: each entry's own
/// rename is fully resolved before its subtree is entered, and sibling
/// failures never spread.
///
/// `prefix` is the canonical (already composed) path of the directory being
/// walked; reports carry `prefix/name` paths rebuilt from it the way the
/// resolver would at the moment of use. In dry-run mode the tree is left
/// untouched and every needed rename is reported and counted as a success.
/// In execute mode a rename happens exactly when its target name is not
/// already taken by a sibling; afterwards the listing is stuck: whatever
/// still needs a rename collides, so a second pass renames nothing.
#[verifier::loop_isolation(false)]
#[verifier::rlimit(100)]
pub fn normalize_entries(
    prefix: &str,
    entries: Vec<FsEntry>,
    dry_run: bool,
    follow: bool,
    c: &mut Counters,
    log: &mut Vec<RenameReport>,
) -> (res: Vec<FsEntry>)
    requires
        old(c).success + old(c).error + pending(entries@, follow) <= u64::MAX,
    ensures
        res@.len() == entries@.len(),
        dry_run ==> eq_entries(entries@, res@),
        dry_run ==> final(c).success == old(c).success + pending(entries@, follow)
            && final(c).error == old(c).error,
        !dry_run ==> pass_post(entries@, res@, follow),
        !dry_run ==> stuck(res@, follow),
        !dry_run ==> final(c).success + final(c).error == old(c).success + old(c).error + pending(
            entries@,
            follow,
        ) && final(c).success >= old(c).success && final(c).error >= old(c).error,
        !dry_run && stuck(entries@, follow) ==> eq_entries(entries@, res@) && final(c).success
            == old(c).success,
        !dry_run && no_collisions(entries@, follow) ==> final(c).error == old(c).error
            && normalized_version(entries@, res@, follow) && norm_entries(res@, follow),
        final(log)@.len() >= old(log)@.len(),
        final(log)@.subrange(0, old(log)@.len() as int) == old(log)@,
        report_pairs(final(log)@.subrange(old(log)@.len() as int, final(log)@.len() as int))
            == attempts(prefix@, entries@, follow),
    decreases entries@,
{
    let ghost orig = entries@;
    let mut rest = entries;
    let mut done: Vec<FsEntry> = Vec::new();
    proof {
        assert(orig.subrange(0, orig.len() as int) =~= orig);
        assert(orig.subrange(0, 0) =~= Seq::<FsEntry>::empty());
        assert(log@.subrange(0, log@.len() as int) =~= log@);
        assert(log@.subrange(log@.len() as int, log@.len() as int) =~= Seq::<
            RenameReport,
        >::empty());
        assert(report_pairs(Seq::<RenameReport>::empty()) =~= Seq::<(Seq<char>, Seq<char>)>::empty());
    }
    while rest.len() > 0
        invariant
            done@.len() + rest@.len() == orig.len(),
            rest@ == orig.subrange(done@.len() as int, orig.len() as int),
            pending(orig, follow) == pending(orig.subrange(0, done@.len() as int), follow)
                + pending(rest@, follow),
            old(c).success + old(c).error + pending(orig, follow) <= u64::MAX,
            !dry_run ==> c.success + c.error == old(c).success + old(c).error + pending(
                orig.subrange(0, done@.len() as int),
                follow,
            ),
            !dry_run ==> c.success >= old(c).success && c.error >= old(c).error,
            dry_run ==> c.success == old(c).success + pending(
                orig.subrange(0, done@.len() as int),
                follow,
            ) && c.error == old(c).error,
            dry_run ==> forall|i: int|
                0 <= i < done@.len() ==> (#[trigger] done@[i]).name@ == orig[i].name@ && eq_node(
                    orig[i].node,
                    done@[i].node,
                ),
            !dry_run ==> forall|i: int|
                0 <= i < done@.len() ==> {
                    &&& ((#[trigger] done@[i]).name@ == orig[i].name@ || done@[i].name@ == nfc_of(
                        orig[i].name@,
                    ))
                    &&& (is_norm(orig[i].name@) ==> done@[i].name@ == orig[i].name@)
                    &&& (done@[i].name@ == nfc_of(orig[i].name@) || exists|j: int|
                        0 <= j < orig.len() && j != i && nfc_of((#[trigger] orig[j]).name@)
                            == nfc_of(orig[i].name@))
                    &&& pass_post_node(orig[i].node, done@[i].node, follow)
                },
            !dry_run ==> forall|i: int|
                0 <= i < done@.len() ==> stuck_node((#[trigger] done@[i]).node, follow),
            !dry_run ==> forall|i: int|
                0 <= i < done@.len() && !is_norm((#[trigger] done@[i]).name@) ==> (exists|j: int|
                    0 <= j < done@.len() && (#[trigger] done@[j]).name@ == nfc_of(done@[i].name@))
                    || (exists|m: int|
                    0 <= m < rest@.len() && (#[trigger] rest@[m]).name@ == nfc_of(done@[i].name@)
                        && is_norm(rest@[m].name@)),
            !dry_run && stuck(orig, follow) ==> c.success == old(c).success && (forall|i: int|
                0 <= i < done@.len() ==> (#[trigger] done@[i]).name@ == orig[i].name@ && eq_node(
                    orig[i].node,
                    done@[i].node,
                )),
            !dry_run && no_collisions(orig, follow) ==> c.error == old(c).error,
            !dry_run && no_collisions(orig, follow) ==> forall|i: int|
                0 <= i < done@.len() ==> is_norm((#[trigger] done@[i]).name@) && norm_node(
                    done@[i].node,
                    follow,
                ),
            log@.len() >= old(log)@.len(),
            log@.subrange(0, old(log)@.len() as int) == old(log)@,
            report_pairs(log@.subrange(old(log)@.len() as int, log@.len() as int)) == attempts(
                prefix@,
                orig.subrange(0, done@.len() as int),
                follow,
            ),
        decreases rest@.len(),
    {
        let ghost k = done@.len() as int;
        let ghost rest_before = rest@;
        let ghost log_iter = log@;
        let e = rest.remove(0);
        proof {
            assert(e == orig[k]);
            assert(rest@ =~= orig.subrange(k + 1, orig.len() as int));
            assert(rest_before.drop_first() =~= rest@);
            assert(pending(rest_before, follow) == entry_pending(orig[k], follow) + pending(
                rest@,
                follow,
            ));
            assert(orig.subrange(0, k + 1) =~= orig.subrange(0, k).push(orig[k]));
            lemma_pending_push(orig.subrange(0, k), orig[k], follow);
        }
        let FsEntry { name: ename, node: enode } = e;
        let ghost gnode = enode;
        let ghost olddone = done@;
        let d = decide(ename.as_str());
        let ghost cand = d.candidate@;
        let child_prefix = prefix.to_owned().concat("/").concat(d.candidate.as_str());
        let mut in_done = false;
        let mut in_rest = false;
        if d.needs_rename && !dry_run {
            in_done = name_present(&done, &d.candidate);
            in_rest = name_present(&rest, &d.candidate);
        }
        let collided = in_done || in_rest;
        let renamed = d.needs_rename && !dry_run && !collided;
        let ghost mut gop: Seq<char> = Seq::empty();
        let ghost mut gnp: Seq<char> = Seq::empty();
        if d.needs_rename {
            let old_path = prefix.to_owned().concat("/").concat(ename.as_str());
            let new_path = prefix.to_owned().concat("/").concat(d.candidate.as_str());
            proof {
                gop = old_path@;
                gnp = new_path@;
            }
            let oc = if dry_run {
                RenameOutcome::DryRunReported
            } else if collided {
                RenameOutcome::Failed("destination already exists".to_owned())
            } else {
                RenameOutcome::Succeeded
            };
            c.record(&oc);
            log.push(RenameReport { old_path, new_path, outcome: oc });
        }
        let ghost log_after_own = log@;
        proof {
            if !dry_run && stuck(orig, follow) && !is_norm(orig[k].name@) {
                // The target of this entry is already taken by a sibling, so
                // the rename must have collided.
                let j = choose|j: int|
                    0 <= j < orig.len() && j != k && (#[trigger] orig[j]).name@ == nfc_of(
                        orig[k].name@,
                    );
                if j < k {
                    assert(done@[j].name@ == cand);
                    assert(in_done);
                } else {
                    assert(rest@[j - (k + 1)].name@ == cand);
                    assert(in_rest);
                }
            }
            if !dry_run && no_collisions(orig, follow) && d.needs_rename {
                // A collision would exhibit two siblings with one NFC target,
                // which freedom from collisions rules out.
                if in_done {
                    let j = choose|j: int|
                        0 <= j < olddone.len() && (#[trigger] olddone[j]).name@ == cand;
                    if olddone[j].name@ == nfc_of(orig[j].name@) {
                        assert(nfc_of(orig[j].name@) == nfc_of(orig[k].name@));
                    } else {
                        assert(orig[j].name@ == cand);
                        assert(nfc_of(orig[j].name@) == nfc_of(cand));
                        assert(nfc_of(cand) == cand);
                        assert(nfc_of(orig[j].name@) == nfc_of(orig[k].name@));
                    }
                    assert(false);
                }
                if in_rest {
                    let m = choose|m: int|
                        0 <= m < rest@.len() && (#[trigger] rest@[m]).name@ == cand;
                    assert(orig[k + 1 + m].name@ == cand);
                    assert(nfc_of(orig[k + 1 + m].name@) == nfc_of(cand));
                    assert(nfc_of(cand) == cand);
                    assert(false);
                }
                assert(!collided);
            }
        }
        let final_name = if renamed {
            d.candidate
        } else {
            ename
        };
        let ghost gfinal = final_name@;
        let new_node = match enode {
            FsNode::File => {
                proof {
                    assert(log@ == log_after_own);
                    assert(log@.subrange(log_after_own.len() as int, log@.len() as int) =~= Seq::<
                        RenameReport,
                    >::empty());
                    assert(report_pairs(Seq::<RenameReport>::empty()) =~= Seq::<
                        (Seq<char>, Seq<char>),
                    >::empty());
                    assert(report_pairs(
                        log@.subrange(log_after_own.len() as int, log@.len() as int),
                    ) == node_attempts(child_path(prefix@, cand), orig[k].node, follow));
                }
                FsNode::File
            },
            FsNode::Dir { via_symlink, children } => {
                proof {
                    assert(gnode == FsNode::Dir { via_symlink, children });
                    if stuck(orig, follow) {
                        assert(stuck_node(orig[k].node, follow));
                    }
                    if no_collisions(orig, follow) {
                        assert(no_collisions_node(orig[k].node, follow));
                    }
                    reveal_strlit("/");
                    assert("/"@ =~= seq!['/']);
                    assert(child_prefix@ == child_path(prefix@, cand));
                }
                if !via_symlink || follow {
                    proof {
                        assert(decreases_to!(orig => orig[k]));
                        assert(decreases_to!(orig[k] => orig[k].node));
                        assert(decreases_to!(gnode => children));
                        assert(decreases_to!(children => children@));
                        assert(decreases_to!(orig => children@));
                    }
                    let sub = normalize_entries(
                        child_prefix.as_str(),
                        children,
                        dry_run,
                        follow,
                        c,
                        log,
                    );
                    proof {
                        assert(log@.subrange(0, log_after_own.len() as int) == log_after_own);
                        assert(report_pairs(
                            log@.subrange(log_after_own.len() as int, log@.len() as int),
                        ) == attempts(child_path(prefix@, cand), kids(orig[k].node), follow));
                        assert(node_attempts(child_path(prefix@, cand), orig[k].node, follow)
                            == attempts(child_path(prefix@, cand), kids(orig[k].node), follow));
                        assert(report_pairs(
                            log@.subrange(log_after_own.len() as int, log@.len() as int),
                        ) == node_attempts(child_path(prefix@, cand), orig[k].node, follow));
                    }
                    FsNode::Dir { via_symlink, children: sub }
                } else {
                    proof {
                        lemma_eq_entries_refl(children@);
                        assert(log@ == log_after_own);
                        assert(log@.subrange(log_after_own.len() as int, log@.len() as int)
                            =~= Seq::<RenameReport>::empty());
                        assert(report_pairs(Seq::<RenameReport>::empty()) =~= Seq::<
                            (Seq<char>, Seq<char>),
                        >::empty());
                        assert(report_pairs(
                            log@.subrange(log_after_own.len() as int, log@.len() as int),
                        ) == node_attempts(child_path(prefix@, cand), orig[k].node, follow));
                    }
                    FsNode::Dir { via_symlink, children }
                }
            },
        };
        proof {
            // The processed entry keeps its relation to the original node.
            if dry_run {
                assert(eq_node(orig[k].node, new_node));
            } else {
                assert(pass_post_node(orig[k].node, new_node, follow));
                assert(stuck_node(new_node, follow));
                if stuck(orig, follow) {
                    assert(eq_node(orig[k].node, new_node));
                }
                if no_collisions(orig, follow) {
                    assert(norm_node(new_node, follow));
                    assert(is_norm(gfinal));
                }
            }
            // The log grew by this entry's own attempt, if any, followed by
            // its subtree's attempts: together, this entry's attempt list.
            reveal_strlit("/");
            assert("/"@ =~= seq!['/']);
            let baseline = old(log)@.len() as int;
            assert(log@.subrange(0, log_after_own.len() as int) =~= log_after_own);
            assert(log_after_own.subrange(0, log_iter.len() as int) =~= log_iter);
            let s_prev = log_iter.subrange(baseline, log_iter.len() as int);
            let own = log_after_own.subrange(log_iter.len() as int, log_after_own.len() as int);
            let rec_sfx = log@.subrange(log_after_own.len() as int, log@.len() as int);
            assert(log@.subrange(baseline, log@.len() as int) =~= s_prev + own + rec_sfx);
            lemma_report_pairs_add(s_prev + own, rec_sfx);
            lemma_report_pairs_add(s_prev, own);
            if d.needs_rename {
                assert(own =~= seq![log_after_own[log_iter.len() as int]]);
                assert(report_pairs(own) =~= seq![(gop, gnp)]);
                assert(gop == child_path(prefix@, orig[k].name@));
                assert(gnp == child_path(prefix@, cand));
            } else {
                assert(own =~= Seq::<RenameReport>::empty());
                assert(report_pairs(own) =~= Seq::<(Seq<char>, Seq<char>)>::empty());
            }
            assert(report_pairs(rec_sfx) == node_attempts(
                child_path(prefix@, cand),
                orig[k].node,
                follow,
            ));
            assert(entry_attempts(prefix@, orig[k], follow) == report_pairs(own) + node_attempts(
                child_path(prefix@, cand),
                orig[k].node,
                follow,
            ));
            lemma_attempts_push(prefix@, orig.subrange(0, k), orig[k], follow);
            assert(report_pairs(log@.subrange(baseline, log@.len() as int)) =~= attempts(
                prefix@,
                orig.subrange(0, k + 1),
                follow,
            ));
        }
        done.push(FsEntry { name: final_name, node: new_node });
        proof {
            let nd = done@;
            assert(nd == olddone.push(FsEntry { name: final_name, node: new_node }));
            if !dry_run {
                // Restore the collision-witness bookkeeping for every processed
                // entry whose name still needs a rename.
                assert forall|i: int|
                    0 <= i < nd.len() && !is_norm((#[trigger] nd[i]).name@) implies (exists|j: int|
                    0 <= j < nd.len() && (#[trigger] nd[j]).name@ == nfc_of(nd[i].name@)) || (exists|m: int|
                    0 <= m < rest@.len() && (#[trigger] rest@[m]).name@ == nfc_of(nd[i].name@)
                        && is_norm(rest@[m].name@)) by {
                    if i < k {
                        assert(!is_norm(olddone[i].name@));
                        if exists|j: int|
                            0 <= j < olddone.len() && (#[trigger] olddone[j]).name@ == nfc_of(
                                olddone[i].name@,
                            ) {
                            let j = choose|j: int|
                                0 <= j < olddone.len() && (#[trigger] olddone[j]).name@ == nfc_of(
                                    olddone[i].name@,
                                );
                            assert(nd[j].name@ == nfc_of(nd[i].name@));
                        } else {
                            let m = choose|m: int|
                                0 <= m < rest_before.len() && (#[trigger] rest_before[m]).name@
                                    == nfc_of(olddone[i].name@) && is_norm(rest_before[m].name@);
                            if m == 0 {
                                // That witness is this very entry: its name is
                                // normalized, so it was not renamed and now
                                // stands in the processed list.
                                assert(orig[k].name@ == nfc_of(olddone[i].name@));
                                assert(is_norm(orig[k].name@));
                                assert(gfinal == orig[k].name@);
                                assert(nd[k as int].name@ == nfc_of(nd[i].name@));
                            } else {
                                assert(rest@[m - 1] == rest_before[m]);
                                assert(rest@[m - 1].name@ == nfc_of(nd[i].name@) && is_norm(
                                    rest@[m - 1].name@,
                                ));
                            }
                        }
                    } else {
                        // The entry processed this iteration: it kept a
                        // non-normalized name, so the rename collided and the
                        // colliding sibling is the witness.
                        assert(i == k);
                        assert(gfinal == orig[k].name@ && !is_norm(orig[k].name@));
                        assert(d.needs_rename && collided);
                        if in_done {
                            let j = choose|j: int|
                                0 <= j < olddone.len() && (#[trigger] olddone[j]).name@ == cand;
                            assert(nd[j].name@ == nfc_of(nd[i].name@));
                        } else {
                            let m = choose|m: int|
                                0 <= m < rest@.len() && (#[trigger] rest@[m]).name@ == cand;
                            assert(is_norm(cand));
                            assert(rest@[m].name@ == nfc_of(nd[i].name@) && is_norm(rest@[m].name@));
                        }
                    }
                }
                // Restore the per-entry pass guarantees, with a collision
                // witness over the original listing for the new entry.
                if !is_norm(orig[k].name@) && gfinal == orig[k].name@ {
                    assert(d.needs_rename && collided);
                    if in_done {
                        let j = choose|j: int|
                            0 <= j < olddone.len() && (#[trigger] olddone[j]).name@ == cand;
                        if olddone[j].name@ == nfc_of(orig[j].name@) {
                            assert(nfc_of(orig[j].name@) == nfc_of(orig[k].name@));
                        } else {
                            assert(orig[j].name@ == cand);
                            assert(nfc_of(orig[j].name@) == nfc_of(cand));
                            assert(nfc_of(cand) == cand);
                            assert(nfc_of(orig[j].name@) == nfc_of(orig[k].name@));
                        }
                        assert(exists|j2: int|
                            0 <= j2 < orig.len() && j2 != k && nfc_of((#[trigger] orig[j2]).name@)
                                == nfc_of(orig[k].name@));
                    } else {
                        let m = choose|m: int|
                            0 <= m < rest@.len() && (#[trigger] rest@[m]).name@ == cand;
                        assert(orig[k + 1 + m].name@ == cand);
                        assert(nfc_of(orig[k + 1 + m].name@) == nfc_of(cand));
                        assert(nfc_of(cand) == cand);
                        assert(exists|j2: int|
                            0 <= j2 < orig.len() && j2 != k && nfc_of((#[trigger] orig[j2]).name@)
                                == nfc_of(orig[k].name@));
                    }
                }
            }
        }
    }
    proof {
        assert(rest@.len() == 0);
        assert(done@.len() == orig.len());
        assert(orig.subrange(0, orig.len() as int) =~= orig);
        if !dry_run && no_collisions(orig, follow) {
            assert(pass_post(orig, done@, follow));
            lemma_pass_post_no_collisions(orig, done@, follow);
        }
        if !dry_run {
            assert forall|i: int| 0 <= i < done@.len() && !is_norm((#[trigger] done@[i]).name@)
            implies exists|j: int|
                0 <= j < done@.len() && j != i && (#[trigger] done@[j]).name@ == nfc_of(
                    done@[i].name@,
                ) by {
                let j = choose|j: int|
                    0 <= j < done@.len() && (#[trigger] done@[j]).name@ == nfc_of(done@[i].name@);
                assert(j != i);
            }
        }
    }
    done
}

/// What one whole run produced: the trees as they stand afterwards, the
/// process-wide counters, the diagnostic reports, and the exit status.
pub struct RunOutcome {
    pub roots: Vec<FsEntry>,
    pub counters: Counters,
    pub reports: Vec<RenameReport>,
    pub exit_code: i32,
}

/// Top-level driver: walk the root entries under one canonical parent path,
/// wait for the whole walk, and derive the exit status from the counters:
/// zero exactly when no real rename failed, so a dry run always exits zero.
pub fn run(prefix: &str, roots: Vec<FsEntry>, dry_run: bool, follow: bool) -> (r: RunOutcome)
    requires
        pending(roots@, follow) <= u64::MAX,
    ensures
        r.roots@.len() == roots@.len(),
        dry_run ==> eq_entries(roots@, r.roots@) && r.counters.success == pending(roots@, follow)
            && r.counters.error == 0,
        !dry_run ==> pass_post(roots@, r.roots@, follow) && stuck(r.roots@, follow),
        !dry_run ==> r.counters.success + r.counters.error == pending(roots@, follow),
        !dry_run && stuck(roots@, follow) ==> eq_entries(roots@, r.roots@) && r.counters.success
            == 0,
        !dry_run && no_collisions(roots@, follow) ==> r.counters.error == 0 && normalized_version(
            roots@,
            r.roots@,
            follow,
        ) && norm_entries(r.roots@, follow) && pending(r.roots@, follow) == 0,
        report_pairs(r.reports@) == attempts(prefix@, roots@, follow),
        (r.exit_code == 0) <==> (r.counters.error == 0),
{
    let mut counters = Counters::new();
    let mut reports: Vec<RenameReport> = Vec::new();
    let normalized = normalize_entries(prefix, roots, dry_run, follow, &mut counters, &mut reports);
    proof {
        assert(reports@.subrange(0, reports@.len() as int) =~= reports@);
        if !dry_run && no_collisions(roots@, follow) {
            lemma_norm_no_pending(normalized@, follow);
        }
    }
    let code = exit_code(&counters);
    RunOutcome { roots: normalized, counters, reports, exit_code: code }
}

} // verus!
