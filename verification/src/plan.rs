//! The relocator's decisions: where each category's subdirectory lies,
//! which renames to attempt, how a directory-creation outcome is read, and
//! how per-file outcomes are collected without letting one failure touch
//! its siblings.

use vstd::prelude::*;
use crate::category::Category;
use crate::category::spec_name;
use crate::folders::PathFolders;
use crate::folders::spec_order;
use crate::folders::str_views;
use crate::paths::file_name_of;
use crate::paths::join;
use crate::paths::spec_file_name;

verus! {

/// One planned rename: the file's current path and its destination inside
/// the category subdirectory, keeping the file's base name.
pub struct MoveStep {
    pub from: String,
    pub to: String,
}

/// The plan for one category: the subdirectory to realize under the root
/// and the renames into it, in bucket order.
pub struct CategoryPlan {
    pub name: String,
    pub dir: String,
    pub moves: Vec<MoveStep>,
}

/// The subdirectory of a category under the root.
pub open spec fn spec_dir(root: Seq<char>, c: Category) -> Seq<char> {
    root + "/"@ + spec_name(c)
}

/// Where a file bucketed into `c` is moved: the category subdirectory plus
/// the file's base name.
pub open spec fn spec_dest(root: Seq<char>, c: Category, p: Seq<char>) -> Seq<char> {
    spec_dir(root, c) + "/"@ + spec_file_name(p)
}

/// Lays out the whole relocation: the nine categories in the fixed order,
/// each with its subdirectory `root/<name>` and one rename per bucketed
/// file.
pub fn build_plan(root: &str, folders: PathFolders) -> (r: Vec<CategoryPlan>)
    ensures
        r@.len() == 9,
        forall|k: int| 0 <= k < 9 ==> (#[trigger] r@[k]).name@ == spec_name(spec_order()[k]),
        forall|k: int| 0 <= k < 9 ==> (#[trigger] r@[k]).dir@ == spec_dir(root@, spec_order()[k]),
        forall|k: int|
            0 <= k < 9 ==> (#[trigger] r@[k]).moves@.len() == folders.bucket(spec_order()[k]).len(),
        forall|k: int, j: int|
            0 <= k < 9 && 0 <= j < folders.bucket(spec_order()[k]).len() ==> (#[trigger] r@[k].moves@[j]).from@
                == folders.bucket(spec_order()[k])[j]@ && r@[k].moves@[j].to@ == spec_dest(
                root@,
                spec_order()[k],
                folders.bucket(spec_order()[k])[j]@,
            ),
{
    let it = folders.into_iteratable();
    let mut r: Vec<CategoryPlan> = Vec::new();
    let mut k: usize = 0;
    while k < 9
        invariant
            it@.len() == 9,
            forall|i: int|
                0 <= i < 9 ==> (#[trigger] it@[i]).0@ == spec_name(spec_order()[i]) && it@[i].1@
                    == folders.bucket(spec_order()[i]),
            0 <= k <= 9,
            r@.len() == k,
            forall|i: int| 0 <= i < k ==> (#[trigger] r@[i]).name@ == spec_name(spec_order()[i]),
            forall|i: int|
                0 <= i < k ==> (#[trigger] r@[i]).dir@ == spec_dir(root@, spec_order()[i]),
            forall|i: int|
                0 <= i < k ==> (#[trigger] r@[i]).moves@.len() == folders.bucket(
                    spec_order()[i],
                ).len(),
            forall|i: int, j: int|
                0 <= i < k && 0 <= j < folders.bucket(spec_order()[i]).len() ==> (#[trigger] r@[i].moves@[j]).from@
                    == folders.bucket(spec_order()[i])[j]@ && r@[i].moves@[j].to@ == spec_dest(
                    root@,
                    spec_order()[i],
                    folders.bucket(spec_order()[i])[j]@,
                ),
        decreases 9 - k,
    {
        let pair = &it[k];
        let name = pair.0.clone();
        let dir = join(root, pair.0.as_str());
        let files = &pair.1;
        let mut moves: Vec<MoveStep> = Vec::new();
        let n = files.len();
        let mut j: usize = 0;
        while j < n
            invariant
                n == files@.len(),
                files@ == it@[k as int].1@,
                it@.len() == 9,
                0 <= k < 9,
                it@[k as int].1@ == folders.bucket(spec_order()[k as int]),
                dir@ == spec_dir(root@, spec_order()[k as int]),
                0 <= j <= n,
                moves@.len() == j,
                forall|i: int|
                    0 <= i < j ==> (#[trigger] moves@[i]).from@ == files@[i]@ && moves@[i].to@
                        == spec_dest(root@, spec_order()[k as int], files@[i]@),
            decreases n - j,
        {
            let p = &files[j];
            let base = file_name_of(p.as_str());
            let to = join(dir.as_str(), base.as_str());
            moves.push(MoveStep { from: p.clone(), to });
            j = j + 1;
        }
        r.push(CategoryPlan { name, dir, moves });
        k = k + 1;
    }
    r
}

/// How an attempt to create a category subdirectory ended. `AlreadyExists`
/// stands apart from every other failure: a directory left by an earlier
/// run is no obstacle.
#[derive(Clone, Copy, PartialEq, Eq, Structural, Debug)]
pub enum CreateOutcome {
    Created,
    AlreadyExists,
    Failed,
}

/// Whether the relocator goes on to move a category's files after trying
/// to create its subdirectory: it does when the directory was freshly
/// created and just as well when it already existed; any other failure
/// leaves the whole category's files in place.
pub fn proceed_after_create(o: CreateOutcome) -> (r: bool)
    ensures
        r == (o == CreateOutcome::Created || o == CreateOutcome::AlreadyExists),
{
    match o {
        CreateOutcome::Created => true,
        CreateOutcome::AlreadyExists => true,
        CreateOutcome::Failed => false,
    }
}

/// How one attempted rename ended.
#[derive(Clone, Copy, PartialEq, Eq, Structural, Debug)]
pub enum MoveOutcome {
    Moved,
    MoveFailed,
}

/// The sources among `froms` whose outcome is `o`, in order.
pub open spec fn spec_selected(
    froms: Seq<Seq<char>>,
    results: Seq<MoveOutcome>,
    o: MoveOutcome,
) -> Seq<Seq<char>>
    decreases froms.len(),
{
    if froms.len() == 0 || froms.len() != results.len() {
        Seq::empty()
    } else {
        let rest = spec_selected(froms.drop_last(), results.drop_last(), o);
        if results.last() == o {
            rest.push(froms.last())
        } else {
            rest
        }
    }
}

/// The sources of a category's planned renames.
pub open spec fn move_froms(s: Seq<MoveStep>) -> Seq<Seq<char>> {
    s.map_values(|m: MoveStep| m.from@)
}

/// What one category's move pass amounts to: which files went in and which
/// stayed behind. A failure is recorded and contains itself: it removes
/// nothing from, and adds nothing to, the record of its siblings.
pub struct MoveReport {
    pub moved: Vec<String>,
    pub failed: Vec<String>,
}

/// Splits a category's planned renames by their outcomes: the sources that
/// moved and the sources that failed, each in plan order.
pub fn move_report(moves: &Vec<MoveStep>, results: &Vec<MoveOutcome>) -> (r: MoveReport)
    requires
        moves@.len() == results@.len(),
    ensures
        str_views(r.moved@) == spec_selected(move_froms(moves@), results@, MoveOutcome::Moved),
        str_views(r.failed@) == spec_selected(
            move_froms(moves@),
            results@,
            MoveOutcome::MoveFailed,
        ),
{
    let ghost fs = move_froms(moves@);
    let mut moved: Vec<String> = Vec::new();
    let mut failed: Vec<String> = Vec::new();
    let n = moves.len();
    let mut i: usize = 0;
    proof {
        assert(str_views(moved@) =~= Seq::<Seq<char>>::empty());
        assert(str_views(failed@) =~= Seq::<Seq<char>>::empty());
        assert(fs.take(0) =~= Seq::<Seq<char>>::empty());
        assert(results@.take(0) =~= Seq::<MoveOutcome>::empty());
    }
    while i < n
        invariant
            n == moves@.len(),
            n == results@.len(),
            fs == move_froms(moves@),
            0 <= i <= n,
            str_views(moved@) == spec_selected(
                fs.take(i as int),
                results@.take(i as int),
                MoveOutcome::Moved,
            ),
            str_views(failed@) == spec_selected(
                fs.take(i as int),
                results@.take(i as int),
                MoveOutcome::MoveFailed,
            ),
        decreases n - i,
    {
        let ghost old_moved = moved;
        let ghost old_failed = failed;
        match results[i] {
            MoveOutcome::Moved => {
                moved.push(moves[i].from.clone());
            },
            MoveOutcome::MoveFailed => {
                failed.push(moves[i].from.clone());
            },
        }
        proof {
            assert(fs.take(i + 1).drop_last() =~= fs.take(i as int));
            assert(results@.take(i + 1).drop_last() =~= results@.take(i as int));
            assert(fs.take(i + 1).last() == moves@[i as int].from@);
            assert(results@.take(i + 1).last() == results@[i as int]);
            if results@[i as int] == MoveOutcome::Moved {
                assert(str_views(moved@) =~= str_views(old_moved@).push(moves@[i as int].from@));
                assert(str_views(failed@) == str_views(old_failed@));
            } else {
                assert(str_views(failed@) =~= str_views(old_failed@).push(moves@[i as int].from@));
                assert(str_views(moved@) == str_views(old_moved@));
            }
        }
        i = i + 1;
    }
    proof {
        assert(fs.take(n as int) =~= fs);
        assert(results@.take(n as int) =~= results@);
    }
    MoveReport { moved, failed }
}

} // verus!
