//! The whole recursive merge walk, over an abstract filesystem: a
//! mathematical model of linking a package tree into a target tree,
//! used to state and prove what repeated runs do. The filesystem is a
//! map from target-relative paths (as segment lists) to what occupies
//! them; the walk follows the per-entry decisions of the linker.

use crate::linker::{spec_plan, Action, TargetStateV};
use crate::pathutil::spec_relative;
use crate::registry::LinkRecordV;
use vstd::prelude::*;

verus! {

/// A package directory tree: what one level of the walk sees, with the
/// subtrees it may descend into.
pub enum PkgTree {
    File { name: Seq<char> },
    Dir { name: Seq<char>, entries: Seq<PkgTree> },
}

/// What occupies a location of the modelled target tree: a missing key
/// is an absent location.
pub open spec fn model_state(
    fs: Map<Seq<Seq<char>>, TargetStateV>,
    p: Seq<Seq<char>>,
) -> TargetStateV {
    if fs.dom().contains(p) {
        fs[p]
    } else {
        TargetStateV::Absent
    }
}

/// Walks the trees of one directory level in order, then the levels
/// below: the model of linking one package directory.
pub open spec fn walk_forest(
    fs: Map<Seq<Seq<char>>, TargetStateV>,
    pkg: Seq<char>,
    origin_base: Seq<char>,
    target_base: Seq<char>,
    relkey: Seq<Seq<char>>,
    trees: Seq<PkgTree>,
    force: bool,
) -> (Map<Seq<Seq<char>>, TargetStateV>, Seq<LinkRecordV>)
    decreases trees,
{
    if trees.len() == 0 {
        (fs, Seq::empty())
    } else {
        let (fs1, r1) = walk_tree(fs, pkg, origin_base, target_base, relkey, trees[0], force);
        let (fs2, r2) = walk_forest(
            fs1,
            pkg,
            origin_base,
            target_base,
            relkey,
            trees.drop_first(),
            force,
        );
        (fs2, r1 + r2)
    }
}

/// Walks one entry: creates or replaces a link, descends into a merged
/// directory, or leaves the location alone, exactly as the per-entry
/// decision says.
pub open spec fn walk_tree(
    fs: Map<Seq<Seq<char>>, TargetStateV>,
    pkg: Seq<char>,
    origin_base: Seq<char>,
    target_base: Seq<char>,
    relkey: Seq<Seq<char>>,
    t: PkgTree,
    force: bool,
) -> (Map<Seq<Seq<char>>, TargetStateV>, Seq<LinkRecordV>)
    decreases t,
{
    match t {
        PkgTree::File { name } => {
            let key = relkey.push(name);
            let origin = origin_base + seq!['/'] + name;
            let target = target_base + seq!['/'] + name;
            let a = spec_plan(false, model_state(fs, key), force);
            if a == Action::Create || a == Action::Replace {
                (
                    fs.insert(key, TargetStateV::Symlink { dest: spec_relative(origin, target) }),
                    seq![LinkRecordV { package: pkg, origin, symlink: target }],
                )
            } else {
                (fs, Seq::empty())
            }
        },
        PkgTree::Dir { name, entries } => {
            let key = relkey.push(name);
            let origin = origin_base + seq!['/'] + name;
            let target = target_base + seq!['/'] + name;
            let a = spec_plan(true, model_state(fs, key), force);
            if a == Action::Create || a == Action::Replace {
                (
                    fs.insert(key, TargetStateV::Symlink { dest: spec_relative(origin, target) }),
                    seq![LinkRecordV { package: pkg, origin, symlink: target }],
                )
            } else if a == Action::Recurse {
                walk_forest(fs, pkg, origin, target, key, entries, force)
            } else {
                (fs, Seq::empty())
            }
        },
    }
}

/// One filesystem evolves into another when every occupied location is
/// left exactly as it was: an unforced walk only fills absent ones.
spec fn evolves(
    fs: Map<Seq<Seq<char>>, TargetStateV>,
    fs2: Map<Seq<Seq<char>>, TargetStateV>,
) -> bool {
    forall|p: Seq<Seq<char>>|
        model_state(fs, p) != TargetStateV::Absent ==> model_state(fs2, p) == model_state(fs, p)
}

proof fn lemma_evolves_trans(
    a: Map<Seq<Seq<char>>, TargetStateV>,
    b: Map<Seq<Seq<char>>, TargetStateV>,
    c: Map<Seq<Seq<char>>, TargetStateV>,
)
    requires
        evolves(a, b),
        evolves(b, c),
    ensures
        evolves(a, c),
{
    assert forall|p: Seq<Seq<char>>|
        model_state(a, p) != TargetStateV::Absent implies model_state(c, p) == model_state(
        a,
        p,
    ) by {
        assert(model_state(b, p) == model_state(a, p));
    }
}

proof fn lemma_walk_forest_evolves(
    fs: Map<Seq<Seq<char>>, TargetStateV>,
    pkg: Seq<char>,
    origin_base: Seq<char>,
    target_base: Seq<char>,
    relkey: Seq<Seq<char>>,
    trees: Seq<PkgTree>,
)
    ensures
        evolves(fs, walk_forest(fs, pkg, origin_base, target_base, relkey, trees, false).0),
    decreases trees,
{
    if trees.len() == 0 {
    } else {
        let fs1 = walk_tree(fs, pkg, origin_base, target_base, relkey, trees[0], false).0;
        lemma_walk_tree_evolves(fs, pkg, origin_base, target_base, relkey, trees[0]);
        lemma_walk_forest_evolves(
            fs1,
            pkg,
            origin_base,
            target_base,
            relkey,
            trees.drop_first(),
        );
        lemma_evolves_trans(
            fs,
            fs1,
            walk_forest(fs1, pkg, origin_base, target_base, relkey, trees.drop_first(), false).0,
        );
    }
}

proof fn lemma_walk_tree_evolves(
    fs: Map<Seq<Seq<char>>, TargetStateV>,
    pkg: Seq<char>,
    origin_base: Seq<char>,
    target_base: Seq<char>,
    relkey: Seq<Seq<char>>,
    t: PkgTree,
)
    ensures
        evolves(fs, walk_tree(fs, pkg, origin_base, target_base, relkey, t, false).0),
    decreases t,
{
    match t {
        PkgTree::File { name } => {},
        PkgTree::Dir { name, entries } => {
            let key = relkey.push(name);
            let a = spec_plan(true, model_state(fs, key), false);
            if a == Action::Recurse {
                lemma_walk_forest_evolves(
                    fs,
                    pkg,
                    origin_base + seq!['/'] + name,
                    target_base + seq!['/'] + name,
                    key,
                    entries,
                );
            }
        },
    }
}

/// Every location a walk of these trees would touch is already settled:
/// each entry's target is occupied, and below every merged directory the
/// same holds again.
spec fn settled(
    fs: Map<Seq<Seq<char>>, TargetStateV>,
    relkey: Seq<Seq<char>>,
    trees: Seq<PkgTree>,
) -> bool
    decreases trees,
{
    trees.len() == 0 || (settled_tree(fs, relkey, trees[0]) && settled(
        fs,
        relkey,
        trees.drop_first(),
    ))
}

/// The settled condition for one entry.
spec fn settled_tree(
    fs: Map<Seq<Seq<char>>, TargetStateV>,
    relkey: Seq<Seq<char>>,
    t: PkgTree,
) -> bool
    decreases t,
{
    match t {
        PkgTree::File { name } => model_state(fs, relkey.push(name)) != TargetStateV::Absent,
        PkgTree::Dir { name, entries } => {
            let st = model_state(fs, relkey.push(name));
            &&& st != TargetStateV::Absent
            &&& (st == TargetStateV::RealDir ==> settled(fs, relkey.push(name), entries))
        },
    }
}

proof fn lemma_settled_evolves(
    fs: Map<Seq<Seq<char>>, TargetStateV>,
    fs2: Map<Seq<Seq<char>>, TargetStateV>,
    relkey: Seq<Seq<char>>,
    trees: Seq<PkgTree>,
)
    requires
        settled(fs, relkey, trees),
        evolves(fs, fs2),
    ensures
        settled(fs2, relkey, trees),
    decreases trees,
{
    if trees.len() == 0 {
    } else {
        lemma_settled_tree_evolves(fs, fs2, relkey, trees[0]);
        lemma_settled_evolves(fs, fs2, relkey, trees.drop_first());
    }
}

proof fn lemma_settled_tree_evolves(
    fs: Map<Seq<Seq<char>>, TargetStateV>,
    fs2: Map<Seq<Seq<char>>, TargetStateV>,
    relkey: Seq<Seq<char>>,
    t: PkgTree,
)
    requires
        settled_tree(fs, relkey, t),
        evolves(fs, fs2),
    ensures
        settled_tree(fs2, relkey, t),
    decreases t,
{
    match t {
        PkgTree::File { name } => {
            assert(model_state(fs2, relkey.push(name)) == model_state(fs, relkey.push(name)));
        },
        PkgTree::Dir { name, entries } => {
            let key = relkey.push(name);
            assert(model_state(fs2, key) == model_state(fs, key));
            if model_state(fs, key) == TargetStateV::RealDir {
                lemma_settled_evolves(fs, fs2, key, entries);
            }
        },
    }
}

proof fn lemma_walk_forest_settles(
    fs: Map<Seq<Seq<char>>, TargetStateV>,
    pkg: Seq<char>,
    origin_base: Seq<char>,
    target_base: Seq<char>,
    relkey: Seq<Seq<char>>,
    trees: Seq<PkgTree>,
)
    ensures
        settled(
            walk_forest(fs, pkg, origin_base, target_base, relkey, trees, false).0,
            relkey,
            trees,
        ),
    decreases trees,
{
    if trees.len() == 0 {
    } else {
        let fs1 = walk_tree(fs, pkg, origin_base, target_base, relkey, trees[0], false).0;
        let fs2 = walk_forest(
            fs1,
            pkg,
            origin_base,
            target_base,
            relkey,
            trees.drop_first(),
            false,
        ).0;
        lemma_walk_tree_settles(fs, pkg, origin_base, target_base, relkey, trees[0]);
        lemma_walk_forest_evolves(fs1, pkg, origin_base, target_base, relkey, trees.drop_first());
        lemma_settled_tree_evolves(fs1, fs2, relkey, trees[0]);
        lemma_walk_forest_settles(fs1, pkg, origin_base, target_base, relkey, trees.drop_first());
    }
}

proof fn lemma_walk_tree_settles(
    fs: Map<Seq<Seq<char>>, TargetStateV>,
    pkg: Seq<char>,
    origin_base: Seq<char>,
    target_base: Seq<char>,
    relkey: Seq<Seq<char>>,
    t: PkgTree,
)
    ensures
        settled_tree(walk_tree(fs, pkg, origin_base, target_base, relkey, t, false).0, relkey, t),
    decreases t,
{
    match t {
        PkgTree::File { name } => {},
        PkgTree::Dir { name, entries } => {
            let key = relkey.push(name);
            let st = model_state(fs, key);
            let a = spec_plan(true, st, false);
            if a == Action::Recurse {
                let fs1 = walk_forest(
                    fs,
                    pkg,
                    origin_base + seq!['/'] + name,
                    target_base + seq!['/'] + name,
                    key,
                    entries,
                    false,
                ).0;
                lemma_walk_forest_evolves(
                    fs,
                    pkg,
                    origin_base + seq!['/'] + name,
                    target_base + seq!['/'] + name,
                    key,
                    entries,
                );
                assert(model_state(fs1, key) == st);
                lemma_walk_forest_settles(
                    fs,
                    pkg,
                    origin_base + seq!['/'] + name,
                    target_base + seq!['/'] + name,
                    key,
                    entries,
                );
            }
        },
    }
}

proof fn lemma_settled_walk_forest_noop(
    fs: Map<Seq<Seq<char>>, TargetStateV>,
    pkg: Seq<char>,
    origin_base: Seq<char>,
    target_base: Seq<char>,
    relkey: Seq<Seq<char>>,
    trees: Seq<PkgTree>,
)
    requires
        settled(fs, relkey, trees),
    ensures
        walk_forest(fs, pkg, origin_base, target_base, relkey, trees, false) == (
            fs,
            Seq::<LinkRecordV>::empty(),
        ),
    decreases trees,
{
    if trees.len() == 0 {
    } else {
        lemma_settled_walk_tree_noop(fs, pkg, origin_base, target_base, relkey, trees[0]);
        lemma_settled_walk_forest_noop(
            fs,
            pkg,
            origin_base,
            target_base,
            relkey,
            trees.drop_first(),
        );
        assert(Seq::<LinkRecordV>::empty() + Seq::<LinkRecordV>::empty()
            =~= Seq::<LinkRecordV>::empty());
    }
}

proof fn lemma_settled_walk_tree_noop(
    fs: Map<Seq<Seq<char>>, TargetStateV>,
    pkg: Seq<char>,
    origin_base: Seq<char>,
    target_base: Seq<char>,
    relkey: Seq<Seq<char>>,
    t: PkgTree,
)
    requires
        settled_tree(fs, relkey, t),
    ensures
        walk_tree(fs, pkg, origin_base, target_base, relkey, t, false) == (
            fs,
            Seq::<LinkRecordV>::empty(),
        ),
    decreases t,
{
    match t {
        PkgTree::File { name } => {},
        PkgTree::Dir { name, entries } => {
            let key = relkey.push(name);
            let st = model_state(fs, key);
            if st == TargetStateV::RealDir {
                lemma_settled_walk_forest_noop(
                    fs,
                    pkg,
                    origin_base + seq!['/'] + name,
                    target_base + seq!['/'] + name,
                    key,
                    entries,
                );
            }
        },
    }
}

/// Whether `p` lies strictly below `rk` in the target tree.
spec fn under(rk: Seq<Seq<char>>, p: Seq<Seq<char>>) -> bool {
    rk.len() < p.len() && p.take(rk.len() as int) == rk
}

/// The path a link created at `p` carries, when the walk reached `p`
/// from level `rk` with the given origin and target directories.
spec fn dest_for(
    origin_base: Seq<char>,
    target_base: Seq<char>,
    rk: Seq<Seq<char>>,
    p: Seq<Seq<char>>,
) -> Seq<char>
    decreases p.len() - rk.len(),
{
    if p.len() <= rk.len() {
        Seq::empty()
    } else if p.len() == rk.len() + 1 {
        spec_relative(
            origin_base + seq!['/'] + p.last(),
            target_base + seq!['/'] + p.last(),
        )
    } else {
        dest_for(
            origin_base + seq!['/'] + p[rk.len() as int],
            target_base + seq!['/'] + p[rk.len() as int],
            rk.push(p[rk.len() as int]),
            p,
        )
    }
}

/// A forced walk changes a location only to the link that walk would
/// put there, and only below its own level.
spec fn forced_evolves(
    fs: Map<Seq<Seq<char>>, TargetStateV>,
    fs2: Map<Seq<Seq<char>>, TargetStateV>,
    origin_base: Seq<char>,
    target_base: Seq<char>,
    rk: Seq<Seq<char>>,
) -> bool {
    forall|p: Seq<Seq<char>>|
        model_state(fs2, p) == model_state(fs, p) || (under(rk, p) && model_state(fs2, p)
            == TargetStateV::Symlink { dest: dest_for(origin_base, target_base, rk, p) })
}

/// Stepping one level down only renames the walk's frame: the link a
/// deeper location gets is the same either way.
proof fn lemma_dest_for_step(
    origin_base: Seq<char>,
    target_base: Seq<char>,
    rk: Seq<Seq<char>>,
    name: Seq<char>,
    p: Seq<Seq<char>>,
)
    requires
        under(rk.push(name), p),
    ensures
        dest_for(origin_base, target_base, rk, p) == dest_for(
            origin_base + seq!['/'] + name,
            target_base + seq!['/'] + name,
            rk.push(name),
            p,
        ),
{
    assert(p.take(rk.len() as int) =~= rk);
    assert(p[rk.len() as int] == rk.push(name)[rk.len() as int]);
    assert(p.len() > rk.len() + 1);
}

proof fn lemma_forced_evolves_trans(
    a: Map<Seq<Seq<char>>, TargetStateV>,
    b: Map<Seq<Seq<char>>, TargetStateV>,
    c: Map<Seq<Seq<char>>, TargetStateV>,
    origin_base: Seq<char>,
    target_base: Seq<char>,
    rk: Seq<Seq<char>>,
)
    requires
        forced_evolves(a, b, origin_base, target_base, rk),
        forced_evolves(b, c, origin_base, target_base, rk),
    ensures
        forced_evolves(a, c, origin_base, target_base, rk),
{
    assert forall|p: Seq<Seq<char>>|
        model_state(c, p) == model_state(a, p) || (under(rk, p) && model_state(c, p)
            == TargetStateV::Symlink { dest: dest_for(origin_base, target_base, rk, p) }) by {
        assert(model_state(b, p) == model_state(a, p) || (under(rk, p) && model_state(b, p)
            == TargetStateV::Symlink { dest: dest_for(origin_base, target_base, rk, p) }));
    }
}

proof fn lemma_forced_walk_forest_evolves(
    fs: Map<Seq<Seq<char>>, TargetStateV>,
    pkg: Seq<char>,
    origin_base: Seq<char>,
    target_base: Seq<char>,
    relkey: Seq<Seq<char>>,
    trees: Seq<PkgTree>,
)
    ensures
        forced_evolves(
            fs,
            walk_forest(fs, pkg, origin_base, target_base, relkey, trees, true).0,
            origin_base,
            target_base,
            relkey,
        ),
    decreases trees,
{
    if trees.len() == 0 {
    } else {
        let fs1 = walk_tree(fs, pkg, origin_base, target_base, relkey, trees[0], true).0;
        lemma_forced_walk_tree_evolves(fs, pkg, origin_base, target_base, relkey, trees[0]);
        lemma_forced_walk_forest_evolves(
            fs1,
            pkg,
            origin_base,
            target_base,
            relkey,
            trees.drop_first(),
        );
        lemma_forced_evolves_trans(
            fs,
            fs1,
            walk_forest(fs1, pkg, origin_base, target_base, relkey, trees.drop_first(), true).0,
            origin_base,
            target_base,
            relkey,
        );
    }
}

proof fn lemma_forced_walk_tree_evolves(
    fs: Map<Seq<Seq<char>>, TargetStateV>,
    pkg: Seq<char>,
    origin_base: Seq<char>,
    target_base: Seq<char>,
    relkey: Seq<Seq<char>>,
    t: PkgTree,
)
    ensures
        forced_evolves(
            fs,
            walk_tree(fs, pkg, origin_base, target_base, relkey, t, true).0,
            origin_base,
            target_base,
            relkey,
        ),
    decreases t,
{
    let name = match t {
        PkgTree::File { name } => name,
        PkgTree::Dir { name, .. } => name,
    };
    let key = relkey.push(name);
    assert(under(relkey, key)) by {
        assert(key.take(relkey.len() as int) =~= relkey);
    }
    assert(dest_for(origin_base, target_base, relkey, key) == spec_relative(
        origin_base + seq!['/'] + name,
        target_base + seq!['/'] + name,
    ));
    match t {
        PkgTree::File { name } => {},
        PkgTree::Dir { name, entries } => {
            let a = spec_plan(true, model_state(fs, key), true);
            if a == Action::Recurse {
                let origin = origin_base + seq!['/'] + name;
                let target = target_base + seq!['/'] + name;
                let fs1 = walk_forest(fs, pkg, origin, target, key, entries, true).0;
                lemma_forced_walk_forest_evolves(fs, pkg, origin, target, key, entries);
                assert forall|p: Seq<Seq<char>>|
                    model_state(fs1, p) == model_state(fs, p) || (under(relkey, p) && model_state(
                        fs1,
                        p,
                    ) == TargetStateV::Symlink {
                        dest: dest_for(origin_base, target_base, relkey, p),
                    }) by {
                    if model_state(fs1, p) != model_state(fs, p) {
                        assert(under(key, p));
                        lemma_dest_for_step(origin_base, target_base, relkey, name, p);
                        assert(under(relkey, p)) by {
                            assert(p.take(relkey.len() as int) =~= relkey);
                        }
                    }
                }
            }
        },
    }
}

/// Every location a forced walk of these trees would touch already holds
/// what that walk would leave there.
spec fn forced_settled(
    fs: Map<Seq<Seq<char>>, TargetStateV>,
    origin_base: Seq<char>,
    target_base: Seq<char>,
    relkey: Seq<Seq<char>>,
    trees: Seq<PkgTree>,
) -> bool
    decreases trees,
{
    trees.len() == 0 || (forced_settled_tree(fs, origin_base, target_base, relkey, trees[0])
        && forced_settled(fs, origin_base, target_base, relkey, trees.drop_first()))
}

/// The forced settled condition for one entry.
spec fn forced_settled_tree(
    fs: Map<Seq<Seq<char>>, TargetStateV>,
    origin_base: Seq<char>,
    target_base: Seq<char>,
    relkey: Seq<Seq<char>>,
    t: PkgTree,
) -> bool
    decreases t,
{
    match t {
        PkgTree::File { name } => model_state(fs, relkey.push(name)) == TargetStateV::Symlink {
            dest: spec_relative(
                origin_base + seq!['/'] + name,
                target_base + seq!['/'] + name,
            ),
        },
        PkgTree::Dir { name, entries } => {
            let st = model_state(fs, relkey.push(name));
            ||| st == TargetStateV::Symlink {
                dest: spec_relative(
                    origin_base + seq!['/'] + name,
                    target_base + seq!['/'] + name,
                ),
            }
            ||| st == TargetStateV::Other
            ||| (st == TargetStateV::RealDir && forced_settled(
                fs,
                origin_base + seq!['/'] + name,
                target_base + seq!['/'] + name,
                relkey.push(name),
                entries,
            ))
        },
    }
}

proof fn lemma_forced_settled_evolves(
    fs: Map<Seq<Seq<char>>, TargetStateV>,
    fs2: Map<Seq<Seq<char>>, TargetStateV>,
    origin_base0: Seq<char>,
    target_base0: Seq<char>,
    rk0: Seq<Seq<char>>,
    origin_base: Seq<char>,
    target_base: Seq<char>,
    rk: Seq<Seq<char>>,
    trees: Seq<PkgTree>,
)
    requires
        forced_settled(fs, origin_base, target_base, rk, trees),
        forced_evolves(fs, fs2, origin_base0, target_base0, rk0),
        forall|p: Seq<Seq<char>>|
            under(rk, p) ==> dest_for(origin_base0, target_base0, rk0, p) == dest_for(
                origin_base,
                target_base,
                rk,
                p,
            ),
    ensures
        forced_settled(fs2, origin_base, target_base, rk, trees),
    decreases trees,
{
    if trees.len() == 0 {
    } else {
        lemma_forced_settled_tree_evolves(
            fs,
            fs2,
            origin_base0,
            target_base0,
            rk0,
            origin_base,
            target_base,
            rk,
            trees[0],
        );
        lemma_forced_settled_evolves(
            fs,
            fs2,
            origin_base0,
            target_base0,
            rk0,
            origin_base,
            target_base,
            rk,
            trees.drop_first(),
        );
    }
}

proof fn lemma_forced_settled_tree_evolves(
    fs: Map<Seq<Seq<char>>, TargetStateV>,
    fs2: Map<Seq<Seq<char>>, TargetStateV>,
    origin_base0: Seq<char>,
    target_base0: Seq<char>,
    rk0: Seq<Seq<char>>,
    origin_base: Seq<char>,
    target_base: Seq<char>,
    rk: Seq<Seq<char>>,
    t: PkgTree,
)
    requires
        forced_settled_tree(fs, origin_base, target_base, rk, t),
        forced_evolves(fs, fs2, origin_base0, target_base0, rk0),
        forall|p: Seq<Seq<char>>|
            under(rk, p) ==> dest_for(origin_base0, target_base0, rk0, p) == dest_for(
                origin_base,
                target_base,
                rk,
                p,
            ),
    ensures
        forced_settled_tree(fs2, origin_base, target_base, rk, t),
    decreases t,
{
    let name = match t {
        PkgTree::File { name } => name,
        PkgTree::Dir { name, .. } => name,
    };
    let key = rk.push(name);
    assert(under(rk, key)) by {
        assert(key.take(rk.len() as int) =~= rk);
    }
    assert(dest_for(origin_base, target_base, rk, key) == spec_relative(
        origin_base + seq!['/'] + name,
        target_base + seq!['/'] + name,
    ));
    assert(model_state(fs2, key) == model_state(fs, key) || model_state(fs2, key)
        == TargetStateV::Symlink {
        dest: spec_relative(origin_base + seq!['/'] + name, target_base + seq!['/'] + name),
    });
    match t {
        PkgTree::File { name } => {},
        PkgTree::Dir { name, entries } => {
            let origin = origin_base + seq!['/'] + name;
            let target = target_base + seq!['/'] + name;
            if model_state(fs, key) == TargetStateV::RealDir && model_state(fs2, key)
                == TargetStateV::RealDir {
                assert forall|p: Seq<Seq<char>>|
                    under(key, p) implies dest_for(origin_base0, target_base0, rk0, p)
                    == dest_for(origin, target, key, p) by {
                    lemma_dest_for_step(origin_base, target_base, rk, name, p);
                    assert(under(rk, p)) by {
                        assert(p.take(rk.len() as int) =~= rk);
                    }
                }
                lemma_forced_settled_evolves(
                    fs,
                    fs2,
                    origin_base0,
                    target_base0,
                    rk0,
                    origin,
                    target,
                    key,
                    entries,
                );
            }
        },
    }
}

proof fn lemma_forced_walk_forest_settles(
    fs: Map<Seq<Seq<char>>, TargetStateV>,
    pkg: Seq<char>,
    origin_base: Seq<char>,
    target_base: Seq<char>,
    relkey: Seq<Seq<char>>,
    trees: Seq<PkgTree>,
)
    ensures
        forced_settled(
            walk_forest(fs, pkg, origin_base, target_base, relkey, trees, true).0,
            origin_base,
            target_base,
            relkey,
            trees,
        ),
    decreases trees,
{
    if trees.len() == 0 {
    } else {
        let fs1 = walk_tree(fs, pkg, origin_base, target_base, relkey, trees[0], true).0;
        let fs2 = walk_forest(
            fs1,
            pkg,
            origin_base,
            target_base,
            relkey,
            trees.drop_first(),
            true,
        ).0;
        lemma_forced_walk_tree_settles(fs, pkg, origin_base, target_base, relkey, trees[0]);
        lemma_forced_walk_forest_evolves(
            fs1,
            pkg,
            origin_base,
            target_base,
            relkey,
            trees.drop_first(),
        );
        lemma_forced_settled_tree_evolves(
            fs1,
            fs2,
            origin_base,
            target_base,
            relkey,
            origin_base,
            target_base,
            relkey,
            trees[0],
        );
        lemma_forced_walk_forest_settles(
            fs1,
            pkg,
            origin_base,
            target_base,
            relkey,
            trees.drop_first(),
        );
    }
}

proof fn lemma_forced_walk_tree_settles(
    fs: Map<Seq<Seq<char>>, TargetStateV>,
    pkg: Seq<char>,
    origin_base: Seq<char>,
    target_base: Seq<char>,
    relkey: Seq<Seq<char>>,
    t: PkgTree,
)
    ensures
        forced_settled_tree(
            walk_tree(fs, pkg, origin_base, target_base, relkey, t, true).0,
            origin_base,
            target_base,
            relkey,
            t,
        ),
    decreases t,
{
    match t {
        PkgTree::File { name } => {},
        PkgTree::Dir { name, entries } => {
            let key = relkey.push(name);
            let st = model_state(fs, key);
            let a = spec_plan(true, st, true);
            let origin = origin_base + seq!['/'] + name;
            let target = target_base + seq!['/'] + name;
            if a == Action::Recurse {
                let fs1 = walk_forest(fs, pkg, origin, target, key, entries, true).0;
                lemma_forced_walk_forest_evolves(fs, pkg, origin, target, key, entries);
                assert(model_state(fs1, key) == st) by {
                    if model_state(fs1, key) != st {
                        assert(under(key, key));
                    }
                }
                lemma_forced_walk_forest_settles(fs, pkg, origin, target, key, entries);
            }
        },
    }
}

proof fn lemma_forced_settled_walk_forest_noop(
    fs: Map<Seq<Seq<char>>, TargetStateV>,
    pkg: Seq<char>,
    origin_base: Seq<char>,
    target_base: Seq<char>,
    relkey: Seq<Seq<char>>,
    trees: Seq<PkgTree>,
)
    requires
        forced_settled(fs, origin_base, target_base, relkey, trees),
    ensures
        walk_forest(fs, pkg, origin_base, target_base, relkey, trees, true).0 == fs,
    decreases trees,
{
    if trees.len() == 0 {
    } else {
        lemma_forced_settled_walk_tree_noop(fs, pkg, origin_base, target_base, relkey, trees[0]);
        lemma_forced_settled_walk_forest_noop(
            fs,
            pkg,
            origin_base,
            target_base,
            relkey,
            trees.drop_first(),
        );
    }
}

proof fn lemma_forced_settled_walk_tree_noop(
    fs: Map<Seq<Seq<char>>, TargetStateV>,
    pkg: Seq<char>,
    origin_base: Seq<char>,
    target_base: Seq<char>,
    relkey: Seq<Seq<char>>,
    t: PkgTree,
)
    requires
        forced_settled_tree(fs, origin_base, target_base, relkey, t),
    ensures
        walk_tree(fs, pkg, origin_base, target_base, relkey, t, true).0 == fs,
    decreases t,
{
    match t {
        PkgTree::File { name } => {
            let key = relkey.push(name);
            let dest = spec_relative(
                origin_base + seq!['/'] + name,
                target_base + seq!['/'] + name,
            );
            assert(fs.insert(key, TargetStateV::Symlink { dest }) =~= fs);
        },
        PkgTree::Dir { name, entries } => {
            let key = relkey.push(name);
            let st = model_state(fs, key);
            let origin = origin_base + seq!['/'] + name;
            let target = target_base + seq!['/'] + name;
            if st == TargetStateV::RealDir {
                lemma_forced_settled_walk_forest_noop(fs, pkg, origin, target, key, entries);
            } else if st == TargetStateV::Other {
            } else {
                let dest = spec_relative(origin, target);
                assert(fs.insert(key, TargetStateV::Symlink { dest }) =~= fs);
            }
        },
    }
}

/// Law: a forced walk is idempotent in end state: running it again over
/// the tree it left deletes and recreates links, but every link it
/// recreates carries the same destination, so the target tree is left
/// exactly as the first forced run left it.
pub proof fn lemma_forced_walk_idempotent(
    fs: Map<Seq<Seq<char>>, TargetStateV>,
    pkg: Seq<char>,
    origin_base: Seq<char>,
    target_base: Seq<char>,
    relkey: Seq<Seq<char>>,
    trees: Seq<PkgTree>,
)
    ensures
        ({
            let fs1 = walk_forest(fs, pkg, origin_base, target_base, relkey, trees, true).0;
            walk_forest(fs1, pkg, origin_base, target_base, relkey, trees, true).0 == fs1
        }),
{
    let fs1 = walk_forest(fs, pkg, origin_base, target_base, relkey, trees, true).0;
    lemma_forced_walk_forest_settles(fs, pkg, origin_base, target_base, relkey, trees);
    lemma_forced_settled_walk_forest_noop(fs1, pkg, origin_base, target_base, relkey, trees);
}

/// Law: linking a package twice without force is idempotent over the
/// whole recursive walk: the second run creates zero links, records
/// nothing, and leaves the target tree exactly as the first run left it.
pub proof fn lemma_walk_idempotent(
    fs: Map<Seq<Seq<char>>, TargetStateV>,
    pkg: Seq<char>,
    origin_base: Seq<char>,
    target_base: Seq<char>,
    relkey: Seq<Seq<char>>,
    trees: Seq<PkgTree>,
)
    ensures
        ({
            let fs1 = walk_forest(fs, pkg, origin_base, target_base, relkey, trees, false).0;
            walk_forest(fs1, pkg, origin_base, target_base, relkey, trees, false) == (
                fs1,
                Seq::<LinkRecordV>::empty(),
            )
        }),
{
    let fs1 = walk_forest(fs, pkg, origin_base, target_base, relkey, trees, false).0;
    lemma_walk_forest_settles(fs, pkg, origin_base, target_base, relkey, trees);
    lemma_settled_walk_forest_noop(fs1, pkg, origin_base, target_base, relkey, trees);
}

} // verus!
