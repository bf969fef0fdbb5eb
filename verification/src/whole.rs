//! What whole manifests attain: the state that their entries describe together.
use vstd::prelude::*;

use crate::action::{Action, Failure, Response};
use crate::apply::{activations, deactivations};
use crate::attain::{
    activation_effect, confined, deactivation_effect, is_as_described, is_skipped, is_sound,
    is_stray, law_activation_attains, law_deactivation_attains, links_directly, moves_aside,
    plain_source, takes_away, touches,
};
use crate::batch::{
    activation_program, batch, ending, finished, item_program, outcome_of, rest_of_batch, succeeded,
    ItemView, Outcome,
};
use crate::effect::{clear_of, lasting_mode, lemma_below_self, shrunk};
use crate::file_util::{
    activate_program, backup_path, clobbers, deactivate_program, keeps_existing, proceed_program,
    Skip,
};
use crate::manifest::{takes_source, FileView};
use crate::model::{
    achieves, allowed, below, group_achieves, key_from, lemma_achieves_bind, link_limit, same_frame,
    Disk, Key,
};
use crate::order::{in_order, law_order_sorted};
use crate::path::{file_name, parts};
use crate::program::{bind, metadata_in, Program};

verus! {

/// What is applied: entries in the order in which they are worked off, and what
/// holds for all of them.
pub struct Plan {
    pub files: Seq<FileView>,
    pub clobber_by_default: Option<bool>,
    pub prefix: Seq<u8>,
    /// What may change for other reasons.
    pub others: Set<Key>,
}

/// The plan of activating `files`, and nothing else.
pub open spec fn plan_of(
    files: Seq<FileView>,
    clobber_by_default: Option<bool>,
    prefix: Seq<u8>,
) -> Plan {
    Plan { files: in_order(files), clobber_by_default, prefix, others: Set::empty() }
}

impl Plan {
    pub open spec fn clobber(self, i: int) -> bool {
        clobbers(self.files[i].clobber, self.clobber_by_default)
    }

    /// Whether activating entry `i` may change what is at `key`.
    pub open spec fn entry_touches(self, disk: Disk, i: int, key: Key) -> bool {
        touches(disk, self.files[i], self.clobber(i), self.prefix, key)
    }

    /// Whether activating any of the entries may change what is at `key`.
    pub open spec fn entries_touch(self, disk: Disk, key: Key) -> bool {
        exists|i: int| 0 <= i < self.files.len() && #[trigger] self.entry_touches(disk, i, key)
    }

    /// Whether `key` is the target of an entry, or lies above one.
    pub open spec fn leads_through(self, disk: Disk, key: Key) -> bool {
        exists|i: int|
            0 <= i < self.files.len() && below(disk.key((#[trigger] self.files[i]).target), key)
    }

    /// Whether what is at `key` may change.
    pub open spec fn reaches(self, disk: Disk, key: Key) -> bool {
        self.entries_touch(disk, key) || self.others.contains(key)
    }

    /// Whether no entry changes what the links that start at `key` lead through,
    /// and no random name is taken to hit a place where they end in nothing.
    pub open spec fn is_settled(self, disk: Disk, key: Key, limit: nat) -> bool
        decreases limit,
    {
        &&& !self.reaches(disk, key)
        &&& !disk.has(key) ==> disk.claimed.contains(key)
        &&& disk.has(key) && disk.nodes[key].content is Link && limit > 0 ==> self.is_settled(
            disk,
            key_from(key.drop_last(), disk.nodes[key].content->Link_0),
            (limit - 1) as nat,
        )
    }

    /// Whether the source of entry `i`, if it has one, is settled.
    pub open spec fn source_settled(self, disk: Disk, i: int) -> bool {
        let file = self.files[i];
        takes_source(file.kind) && file.source is Some ==> self.is_settled(
            disk,
            disk.key(file.source->0),
            link_limit(),
        )
    }

    /// Whether a link at the target of entry `i` is none that a modify would set
    /// a mode through, and leads on through settled places if it has to be
    /// followed.
    pub open spec fn target_settled(self, disk: Disk, i: int) -> bool {
        let file = self.files[i];
        let key = disk.key(file.target);
        disk.has(key) && disk.nodes[key].content is Link ==> {
            &&& file.kind is Modify ==> file.permissions is None
            &&& file.kind is Symlink && file.follow_symlinks != Some(false) ==> self.is_settled(
                disk,
                key_from(key.drop_last(), disk.nodes[key].content->Link_0),
                (link_limit() - 1) as nat,
            )
        }
    }

    /// Whether entry `i` can be brought about among the others.
    pub open spec fn entry_fits(self, disk: Disk, i: int) -> bool {
        let file = self.files[i];
        &&& takes_source(file.kind) ==> file_name(file.target) is Some
        &&& lasting_mode(file)
        &&& disk.claimed.contains(disk.key(file.target))
        &&& self.source_settled(disk, i)
        &&& self.target_settled(disk, i)
    }

    /// Whether activating entry `i` leaves the target of entry `j` alone. Of two
    /// deletes, one may take away what the other is about.
    pub open spec fn spares(self, disk: Disk, i: int, j: int) -> bool {
        (self.files[i].kind is Delete && self.files[j].kind is Delete) || !self.entry_touches(
            disk,
            i,
            disk.key(self.files[j].target),
        )
    }

    /// Whether the entries do not get in each other's way.
    pub open spec fn is_coherent(self, disk: Disk) -> bool {
        &&& forall|i: int| 0 <= i < self.files.len() ==> #[trigger] self.entry_fits(disk, i)
        &&& forall|i: int, j: int|
            0 <= i < self.files.len() && 0 <= j < self.files.len() && i != j
                ==> #[trigger] self.spares(disk, i, j)
    }
}

/// Whether an entry that was activated without failure is in force: it is in
/// place, or it keeps what was at its target at the start. Nothing is said of an
/// entry whose source was missing at the start.
pub open spec fn in_force(start: Disk, disk: Disk, file: FileView) -> bool {
    let key = start.key(file.target);
    ||| is_skipped(start, file)
    ||| is_as_described(disk, file)
    ||| keeps_existing(file) && start.has(key) && disk.at(key) == start.at(key)
}

/// Whether `after` is `disk` where no entry of the plan touches it, but for new
/// directories above the targets, and for temporary files.
pub open spec fn same_elsewhere(plan: Plan, disk: Disk, after: Disk) -> bool {
    &&& forall|k: Key|
        !plan.entries_touch(disk, k) && disk.has(k) ==> #[trigger] after.at(k) == disk.at(k)
    &&& forall|k: Key|
        !plan.entries_touch(disk, k) && !disk.has(k) && #[trigger] after.has(k)
            ==> !disk.claimed.contains(k) || (after.nodes[k].content is Directory
            && plan.leads_through(disk, k))
}

/// What holds after `done.len()` entries of a plan have been worked off.
pub open spec fn holds(plan: Plan, start: Disk, disk: Disk, done: Seq<Outcome>) -> bool {
    let n = done.len() as int;
    &&& same_frame(start, disk)
    &&& same_elsewhere(plan, start, disk)
    &&& n <= plan.files.len()
    &&& forall|j: int| 0 <= j < plan.files.len() ==> #[trigger] plan.source_settled(disk, j)
    &&& forall|j: int|
        0 <= j < plan.files.len() && !is_skipped(start, #[trigger] plan.files[j]) ==> !is_skipped(
            disk,
            plan.files[j],
        )
    &&& forall|j: int| n <= j < plan.files.len() ==> #[trigger] plan.target_settled(disk, j)
    &&& forall|j: int|
        #![trigger plan.files[j]]
        n <= j < plan.files.len() && takes_source(plan.files[j].kind) ==> disk.at(
            start.key(plan.files[j].target),
        ) == start.at(start.key(plan.files[j].target))
    &&& forall|j: int|
        0 <= j < n ==> #[trigger] done[j] is Finished || (done[j] is Skipped && is_skipped(
            start,
            plan.files[j],
        ))
    &&& forall|j: int|
        0 <= j < n && succeeded(#[trigger] done[j]) ==> in_force(start, disk, plan.files[j]) && (
        plan.files[j].kind is Symlink ==> plan.target_settled(disk, j))
}

pub(crate) proof fn lemma_same_reach(plan: Plan, disk: Disk, after: Disk, key: Key)
    requires
        same_frame(disk, after),
    ensures
        plan.reaches(after, key) == plan.reaches(disk, key),
        plan.entries_touch(after, key) == plan.entries_touch(disk, key),
        forall|i: int| #[trigger]
            plan.entry_touches(after, i, key) == plan.entry_touches(disk, i, key),
{
    assert forall|i: int| #[trigger] plan.entry_touches(after, i, key) == plan.entry_touches(
        disk,
        i,
        key,
    ) by {}
    if plan.entries_touch(disk, key) {
        let i = choose|i: int|
            0 <= i < plan.files.len() && #[trigger] plan.entry_touches(disk, i, key);
        assert(plan.entry_touches(after, i, key));
    }
}

/// What is settled stays so, and leads where it led.
pub(crate) proof fn lemma_settled_step(
    plan: Plan,
    disk: Disk,
    after: Disk,
    i: int,
    key: Key,
    limit: nat,
)
    requires
        0 <= i < plan.files.len(),
        confined(disk, after, plan.files[i], plan.clobber(i), plan.prefix),
        plan.is_settled(disk, key, limit),
    ensures
        plan.is_settled(after, key, limit),
        disk.has(key) ==> after.at(key) == disk.at(key),
        disk.resolve(key, limit) matches Some(end) ==> after.resolve(key, limit) == Some(end)
            && disk.has(end) && after.at(end) == disk.at(end),
    decreases limit,
{
    lemma_same_reach(plan, disk, after, key);
    assert(!plan.entry_touches(disk, i, key));
    if disk.has(key) {
        assert(after.at(key) == disk.at(key));
        if disk.nodes[key].content is Link && limit > 0 {
            lemma_settled_step(
                plan,
                disk,
                after,
                i,
                key_from(key.drop_last(), disk.nodes[key].content->Link_0),
                (limit - 1) as nat,
            );
        }
    } else if after.has(key) {
        assert(after.nodes[key].content is Directory);
    }
}

/// The end of a settled chain of links is settled.
pub(crate) proof fn lemma_settled_end(plan: Plan, disk: Disk, key: Key, limit: nat)
    requires
        plan.is_settled(disk, key, limit),
    ensures
        disk.resolve(key, limit) matches Some(end) ==> disk.has(end) && !(
        disk.nodes[end].content is Link) && !plan.reaches(disk, end),
    decreases limit,
{
    if disk.has(key) && disk.nodes[key].content is Link && limit > 0 {
        lemma_settled_end(
            plan,
            disk,
            key_from(key.drop_last(), disk.nodes[key].content->Link_0),
            (limit - 1) as nat,
        );
    }
}

pub(crate) proof fn lemma_settled_clear(plan: Plan, disk: Disk, i: int, key: Key, limit: nat)
    requires
        0 <= i < plan.files.len(),
        takes_source(plan.files[i].kind),
        plan.is_settled(disk, key, limit),
    ensures
        clear_of(disk, key, limit, disk.key(plan.files[i].target)),
        moves_aside(plan.files[i], plan.clobber(i)) ==> clear_of(
            disk,
            key,
            limit,
            disk.key(backup_path(plan.files[i].target, plan.prefix)),
        ),
    decreases limit,
{
    assert(!plan.entry_touches(disk, i, key));
    if disk.has(key) && disk.nodes[key].content is Link && limit > 0 {
        lemma_settled_clear(
            plan,
            disk,
            i,
            key_from(key.drop_last(), disk.nodes[key].content->Link_0),
            (limit - 1) as nat,
        );
    }
}

/// An entry can be brought about when its turn comes.
proof fn lemma_turn_sound(plan: Plan, start: Disk, disk: Disk, done: Seq<Outcome>)
    requires
        plan.is_coherent(start),
        holds(plan, start, disk, done),
        done.len() < plan.files.len(),
    ensures
        is_sound(
            disk,
            plan.files[done.len() as int],
            plan.clobber(done.len() as int),
            plan.prefix,
        ),
{
    let n = done.len() as int;
    let file = plan.files[n];
    assert(plan.entry_fits(start, n));
    assert(plan.source_settled(disk, n));
    assert(plan.target_settled(disk, n));
    if takes_source(file.kind) && file.source is Some {
        lemma_settled_clear(plan, disk, n, disk.key(file.source->0), link_limit());
    }
}

/// A target that an entry leaves alone stays as it is, or becomes a directory
/// where a directory can be wanted.
pub(crate) proof fn lemma_target_step(
    plan: Plan,
    start: Disk,
    disk: Disk,
    after: Disk,
    i: int,
    j: int,
)
    requires
        plan.is_coherent(start),
        same_frame(start, disk),
        0 <= i < plan.files.len(),
        0 <= j < plan.files.len(),
        i != j,
        !(plan.files[j].kind is Delete),
        confined(disk, after, plan.files[i], plan.clobber(i), plan.prefix),
    ensures
        disk.has(disk.key(plan.files[j].target)) ==> after.at(disk.key(plan.files[j].target))
            == disk.at(disk.key(plan.files[j].target)),
        !disk.has(disk.key(plan.files[j].target)) && after.has(disk.key(plan.files[j].target))
            ==> after.nodes[disk.key(plan.files[j].target)].content is Directory,
        takes_source(plan.files[j].kind) ==> after.at(disk.key(plan.files[j].target)) == disk.at(
            disk.key(plan.files[j].target),
        ),
        plan.target_settled(disk, j) ==> plan.target_settled(after, j),
{
    let file = plan.files[j];
    let key = disk.key(file.target);
    assert(plan.entry_fits(start, j));
    assert(plan.spares(start, i, j));
    assert(plan.spares(start, j, i));
    lemma_same_reach(plan, start, disk, key);
    lemma_same_reach(plan, start, disk, disk.key(plan.files[i].target));
    assert(!plan.entry_touches(disk, i, key));
    assert(!plan.entry_touches(disk, j, disk.key(plan.files[i].target)));
    if disk.has(key) {
        assert(after.at(key) == disk.at(key));
        if plan.target_settled(disk, j) && disk.nodes[key].content is Link && file.kind is Symlink
            && file.follow_symlinks != Some(false) {
            lemma_settled_step(
                plan,
                disk,
                after,
                i,
                key_from(key.drop_last(), disk.nodes[key].content->Link_0),
                (link_limit() - 1) as nat,
            );
        }
    }
}

/// An entry that is in place stays there when another entry is activated.
pub(crate) proof fn lemma_stays_in_place(
    plan: Plan,
    start: Disk,
    disk: Disk,
    after: Disk,
    i: int,
    j: int,
)
    requires
        plan.is_coherent(start),
        same_frame(start, disk),
        0 <= i < plan.files.len(),
        0 <= j < plan.files.len(),
        i != j,
        !(plan.files[j].kind is Delete),
        takes_source(plan.files[j].kind) ==> plan.files[j].source is Some,
        plan.source_settled(disk, j),
        plan.files[j].kind is Symlink ==> plan.target_settled(disk, j),
        is_as_described(disk, plan.files[j]),
        confined(disk, after, plan.files[i], plan.clobber(i), plan.prefix),
    ensures
        is_as_described(after, plan.files[j]),
{
    let file = plan.files[j];
    let key = disk.key(file.target);
    assert(after.key(file.target) == key);
    lemma_target_step(plan, start, disk, after, i, j);
    if takes_source(file.kind) {
        let source = disk.key(file.source->0);
        lemma_settled_step(plan, disk, after, i, source, link_limit());
        if file.kind is Symlink && file.follow_symlinks != Some(false) {
            lemma_settled_end(plan, disk, source, link_limit());
            if disk.nodes[key].content is Link {
                lemma_settled_step(
                    plan,
                    disk,
                    after,
                    i,
                    key_from(key.drop_last(), disk.nodes[key].content->Link_0),
                    (link_limit() - 1) as nat,
                );
            } else {
                lemma_below_self(key);
                assert(plan.entry_touches(disk, j, key));
            }
        }
    }
}

/// An entry that is in force stays in force when a later one is activated.
proof fn lemma_stays_in_force(
    plan: Plan,
    start: Disk,
    disk: Disk,
    after: Disk,
    i: int,
    j: int,
    done: Result<(), Failure>,
)
    requires
        plan.is_coherent(start),
        same_frame(start, disk),
        0 <= j < i < plan.files.len(),
        plan.files[j].kind is Delete ==> plan.files[i].kind is Delete,
        plan.source_settled(disk, j),
        plan.files[j].kind is Symlink ==> plan.target_settled(disk, j),
        in_force(start, disk, plan.files[j]),
        activation_effect(disk, after, plan.files[i], plan.clobber(i), plan.prefix, done),
    ensures
        in_force(start, after, plan.files[j]),
{
    let file = plan.files[j];
    let key = disk.key(file.target);
    if is_skipped(start, file) {
    } else if file.kind is Delete {
        assert(after.key(file.target) == key);
        if after.has(key) {
            assert(after.at(key) == disk.at(key));
        }
    } else if is_as_described(disk, file) {
        lemma_stays_in_place(plan, start, disk, after, i, j);
    } else {
        lemma_target_step(plan, start, disk, after, i, j);
    }
}

/// A link that leads to the end of a settled source is settled.
pub(crate) proof fn lemma_link_settled(plan: Plan, disk: Disk, after: Disk, i: int)
    requires
        0 <= i < plan.files.len(),
        plan.files[i].kind is Symlink,
        plan.files[i].source is Some,
        plan.source_settled(disk, i),
        confined(disk, after, plan.files[i], plan.clobber(i), plan.prefix),
        links_directly(after, plan.files[i]),
    ensures
        plan.target_settled(after, i),
{
    let file = plan.files[i];
    if file.follow_symlinks != Some(false) {
        let source = disk.key(file.source->0);
        lemma_settled_step(plan, disk, after, i, source, link_limit());
        lemma_settled_end(plan, after, source, link_limit());
        let key = after.key(file.target);
        let dest = after.nodes[key].content->Link_0;
        assert(key_from(key.drop_last(), dest) == parts(dest));
        assert(plan.is_settled(after, parts(dest), (link_limit() - 1) as nat));
    }
}

/// The entry whose turn it was is in force if it did not fail.
proof fn lemma_comes_in_force(
    plan: Plan,
    start: Disk,
    disk: Disk,
    after: Disk,
    done: Seq<Outcome>,
)
    requires
        plan.is_coherent(start),
        holds(plan, start, disk, done),
        done.len() < plan.files.len(),
        activation_effect(
            disk,
            after,
            plan.files[done.len() as int],
            plan.clobber(done.len() as int),
            plan.prefix,
            Ok(()),
        ),
    ensures
        in_force(start, after, plan.files[done.len() as int]),
        plan.files[done.len() as int].kind is Symlink ==> plan.target_settled(
            after,
            done.len() as int,
        ),
{
    let n = done.len() as int;
    assert(plan.source_settled(disk, n));
    assert(plan.target_settled(disk, n));
    if plan.files[n].kind is Symlink && after != disk {
        lemma_link_settled(plan, disk, after, n);
    }
}

/// What is elsewhere stays as it was, one entry after the other.
pub(crate) proof fn lemma_elsewhere_step(plan: Plan, start: Disk, disk: Disk, after: Disk, i: int)
    requires
        0 <= i < plan.files.len(),
        same_frame(start, disk),
        same_elsewhere(plan, start, disk),
        confined(disk, after, plan.files[i], plan.clobber(i), plan.prefix),
    ensures
        same_elsewhere(plan, start, after),
{
    assert forall|k: Key| !plan.entries_touch(start, k) implies !#[trigger] plan.entry_touches(
        disk,
        i,
        k,
    ) by {
        lemma_same_reach(plan, start, disk, k);
    }
    assert forall|k: Key|
        !plan.entries_touch(start, k) && start.has(k) implies #[trigger] after.at(k) == start.at(
        k,
    ) by {
        assert(disk.at(k) == start.at(k));
        assert(!plan.entry_touches(disk, i, k));
    }
    assert forall|k: Key|
        !plan.entries_touch(start, k) && !start.has(k) && #[trigger] after.has(
            k,
        ) implies !start.claimed.contains(k) || (after.nodes[k].content is Directory
        && plan.leads_through(start, k)) by {
        assert(!plan.entry_touches(disk, i, k));
        if disk.has(k) {
            assert(after.at(k) == disk.at(k));
        } else if !is_stray(disk, k) {
            assert(below(start.key(plan.files[i].target), k));
        }
    }
}

/// Whether the deletes of a plan come last.
pub open spec fn deletes_last(plan: Plan) -> bool {
    forall|i: int, j: int|
        0 <= j < i < plan.files.len() && #[trigger] plan.files[j].kind is Delete
            ==> #[trigger] plan.files[i].kind is Delete
}

/// One more entry worked off.
proof fn lemma_turn(
    plan: Plan,
    start: Disk,
    disk: Disk,
    after: Disk,
    done: Seq<Outcome>,
    outcome: Outcome,
)
    requires
        plan.is_coherent(start),
        deletes_last(plan),
        holds(plan, start, disk, done),
        done.len() < plan.files.len(),
        outcome is Finished || (outcome is Skipped && is_skipped(
            disk,
            plan.files[done.len() as int],
        )),
        activation_effect(
            disk,
            after,
            plan.files[done.len() as int],
            plan.clobber(done.len() as int),
            plan.prefix,
            ending(outcome),
        ),
    ensures
        holds(plan, start, after, done.push(outcome)),
{
    let n = done.len() as int;
    let last = ending(outcome);
    let longer = done.push(outcome);
    lemma_elsewhere_step(plan, start, disk, after, n);
    assert forall|j: int| 0 <= j < plan.files.len() implies #[trigger] plan.source_settled(
        after,
        j,
    ) && (!is_skipped(start, plan.files[j]) ==> !is_skipped(after, plan.files[j])) by {
        let file = plan.files[j];
        assert(plan.source_settled(disk, j));
        if takes_source(file.kind) && file.source is Some {
            lemma_settled_step(plan, disk, after, n, disk.key(file.source->0), link_limit());
        }
    }
    assert forall|j: int| 0 <= j < plan.files.len() && !is_skipped(
        start,
        #[trigger] plan.files[j],
    ) implies !is_skipped(after, plan.files[j]) by {
        assert(plan.source_settled(after, j));
    }
    assert forall|j: int| n + 1 <= j < plan.files.len() implies #[trigger] plan.target_settled(
        after,
        j,
    ) by {
        assert(plan.target_settled(disk, j));
        if !(plan.files[j].kind is Delete) {
            lemma_target_step(plan, start, disk, after, n, j);
        }
    }
    assert forall|j: int|
        #![trigger plan.files[j]]
        n + 1 <= j < plan.files.len() && takes_source(plan.files[j].kind) implies after.at(
        start.key(plan.files[j].target),
    ) == start.at(start.key(plan.files[j].target)) by {
        lemma_target_step(plan, start, disk, after, n, j);
    }
    assert forall|j: int|
        0 <= j < n + 1 && succeeded(#[trigger] longer[j]) implies in_force(
        start,
        after,
        plan.files[j],
    ) && (plan.files[j].kind is Symlink ==> plan.target_settled(after, j)) by {
        if j < n {
            assert(succeeded(done[j]));
            assert(plan.source_settled(disk, j));
            lemma_stays_in_force(plan, start, disk, after, n, j, last);
            if plan.files[j].kind is Symlink {
                lemma_target_step(plan, start, disk, after, n, j);
            }
        } else {
            lemma_comes_in_force(plan, start, disk, after, done);
        }
    }
}

/// The work of activating the entries of a plan.
pub open spec fn plan_items(plan: Plan) -> Seq<ItemView> {
    plan.files.map_values(|f: FileView| ItemView::Activate(f))
}

/// What activating an entry achieves, the piece of work that does so achieves
/// too, whether it skips the entry or not.
proof fn lemma_activation_item(
    file: FileView,
    clobber_by_default: Option<bool>,
    prefix: Seq<u8>,
    disk: Disk,
    effect: spec_fn(Result<(), Failure>, Disk) -> bool,
    post: spec_fn(Result<Outcome, Failure>, Disk) -> bool,
)
    requires
        achieves(activate_program(file, clobber_by_default, prefix), disk, effect),
        forall|outcome: Outcome, after: Disk|
            (outcome is Finished || (outcome is Skipped && is_skipped(disk, file))) && effect(
                ending(outcome),
                after,
            ) ==> #[trigger] post(Ok(outcome), after),
    ensures
        achieves(activation_program(file, clobber_by_default, prefix), disk, post),
{
    broadcast use group_achieves;

    reveal_with_fuel(bind, 2);
    let go = proceed_program(file, clobber_by_default, prefix);
    assert forall|after: Disk| #[trigger]
        achieves(go, after, effect) && after == disk implies achieves(
        finished(go),
        after,
        post,
    ) by {
        lemma_achieves_bind(
            go,
            |done: Result<(), Failure>|
                Program::Return(Ok::<Outcome, Failure>(Outcome::Finished(done))),
            disk,
            effect,
            post,
        );
    }
    if effect(Ok(()), disk) && is_skipped(disk, file) {
        assert forall|reason: Skip| #[trigger] post(Ok(Outcome::Skipped(reason)), disk) by {
            assert(ending(Outcome::Skipped(reason)) == Ok::<(), Failure>(()));
        }
    }
    if takes_source(file.kind) && file.source is Some {
        let whole = activate_program(file, clobber_by_default, prefix);
        let item = activation_program(file, clobber_by_default, prefix);
        let request = Action::SymlinkMetadata(file.source->0);
        let one = whole->Ask_1;
        let other = item->Ask_1;
        assert(whole == Program::Ask(request, one));
        assert(item == Program::Ask(request, other));
        assert forall|reply: Response, after: Disk| #[trigger]
            allowed(disk, request, reply, after) implies achieves(other(reply), after, post) by {
            assert(achieves(one(reply), after, effect));
            assert(after == disk);
            let skips = match metadata_in(reply) {
                Ok(metadata) => file.kind is Copy && !(metadata.node is File),
                Err(fault) => fault is NotFound,
            };
            if skips {
                assert(is_skipped(disk, file));
                assert(one(reply) == Program::Return(Ok::<(), Failure>(())));
                assert(effect(Ok(()), disk));
            } else {
                assert(one(reply) == go);
                assert(other(reply) == finished(go));
            }
        }
    }
}

/// What comes of a plan whose first entries are worked off already.
pub(crate) proof fn lemma_plan(
    plan: Plan,
    start: Disk,
    disk: Disk,
    given: Seq<Outcome>,
    done: Seq<Outcome>,
    post: spec_fn(Seq<Outcome>, Disk) -> bool,
)
    requires
        plan.is_coherent(start),
        deletes_last(plan),
        holds(plan, start, disk, given + done),
        forall|all: Seq<Outcome>, after: Disk|
            given.len() + all.len() == plan.files.len() && holds(plan, start, after, given + all)
                ==> #[trigger] post(all, after),
    ensures
        achieves(
            batch(
                plan_items(plan).skip((given.len() + done.len()) as int),
                done,
                plan.clobber_by_default,
                plan.prefix,
            ),
            disk,
            post,
        ),
    decreases plan.files.len() - given.len() - done.len(),
{
    broadcast use group_achieves;

    let n = (given + done).len() as int;
    let items = plan_items(plan).skip(n);
    if n < plan.files.len() {
        let file = plan.files[n];
        assert(items[0] == ItemView::Activate(file));
        lemma_turn_sound(plan, start, disk, given + done);
        law_activation_attains(file, plan.clobber_by_default, plan.prefix, disk);
        let effect = |last: Result<(), Failure>, after: Disk|
            activation_effect(
                disk,
                after,
                file,
                clobbers(file.clobber, plan.clobber_by_default),
                plan.prefix,
                last,
            );
        let mid = |result: Result<Outcome, Failure>, after: Disk|
            {
                &&& result matches Ok(outcome)
                &&& outcome is Finished || (outcome is Skipped && is_skipped(disk, file))
                &&& effect(ending(outcome), after)
            };
        lemma_activation_item(
            file,
            plan.clobber_by_default,
            plan.prefix,
            disk,
            effect,
            mid,
        );
        let next = rest_of_batch(items, done, plan.clobber_by_default, plan.prefix);
        assert forall|result: Result<Outcome, Failure>, after: Disk| #[trigger]
            mid(result, after) implies achieves(next(result), after, post) by {
            let outcome = result->Ok_0;
            lemma_turn(plan, start, disk, after, given + done, outcome);
            let longer = done.push(outcome);
            assert((given + done).push(outcome) =~= given + longer);
            assert(outcome_of(result) == outcome);
            assert(items.skip(1) =~= plan_items(plan).skip(n + 1));
            lemma_plan(plan, start, after, given, longer, post);
        }
        lemma_achieves_bind(
            item_program(items[0], plan.clobber_by_default, plan.prefix),
            next,
            disk,
            mid,
            post,
        );
    } else {
        assert(items.len() == 0);
    }
}

/// What comes of activating a manifest: there is an outcome for each entry; what
/// no entry touches is as it was; each entry that did not fail is in force; and
/// only entries whose source was missing or unfit at the start are skipped.
pub open spec fn manifest_effect(
    disk: Disk,
    after: Disk,
    plan: Plan,
    outcomes: Seq<Outcome>,
) -> bool {
    &&& outcomes.len() == plan.files.len()
    &&& same_elsewhere(plan, disk, after)
    &&& forall|i: int|
        0 <= i < outcomes.len() && succeeded(#[trigger] outcomes[i]) ==> in_force(
            disk,
            after,
            plan.files[i],
        )
    &&& forall|i: int|
        0 <= i < outcomes.len() && #[trigger] outcomes[i] is Skipped ==> is_skipped(
            disk,
            plan.files[i],
        )
}

/// When the entries of a manifest have been activated, each that did not fail is
/// in force: what came after it has not undone it. The entries must not get in
/// each other's way: none may touch the target of another, nor what a source or
/// a link that has to be followed leads through.
pub proof fn law_manifest_attains(
    files: Seq<FileView>,
    clobber_by_default: Option<bool>,
    prefix: Seq<u8>,
    disk: Disk,
)
    requires
        plan_of(files, clobber_by_default, prefix).is_coherent(disk),
    ensures
        achieves(
            batch(activations(files), Seq::<Outcome>::empty(), clobber_by_default, prefix),
            disk,
            |outcomes: Seq<Outcome>, after: Disk|
                manifest_effect(
                    disk,
                    after,
                    plan_of(files, clobber_by_default, prefix),
                    outcomes,
                ),
        ),
{
    let plan = plan_of(files, clobber_by_default, prefix);
    let none = Seq::<Outcome>::empty();
    law_order_sorted(files);
    assert forall|j: int| 0 <= j < plan.files.len() implies #[trigger] plan.source_settled(
        disk,
        j,
    ) by {
        assert(plan.entry_fits(disk, j));
    }
    assert forall|j: int| 0 <= j < plan.files.len() implies #[trigger] plan.target_settled(
        disk,
        j,
    ) by {
        assert(plan.entry_fits(disk, j));
    }
    assert(none + none =~= none);
    assert(holds(plan, disk, disk, none + none));
    assert(plan_items(plan).skip(0) =~= activations(files));
    let post = |outcomes: Seq<Outcome>, after: Disk|
        manifest_effect(disk, after, plan_of(files, clobber_by_default, prefix), outcomes);
    assert forall|all: Seq<Outcome>, after: Disk|
        none.len() + all.len() == plan.files.len() && holds(
            plan,
            disk,
            after,
            none + all,
        ) implies #[trigger] post(all, after) by {
        assert(none + all =~= all);
    }
    lemma_plan(plan, disk, disk, none, none, post);
}

/// What holds after `done.len()` entries have been deactivated: nothing has come
/// in addition, nothing has changed but at the targets that are taken away, and
/// those that did not fail are gone.
pub open spec fn withdrawn(
    start: Disk,
    disk: Disk,
    files: Seq<FileView>,
    done: Seq<Outcome>,
) -> bool {
    &&& same_frame(start, disk)
    &&& shrunk(start, disk)
    &&& forall|k: Key|
        (forall|i: int|
            0 <= i < files.len() && takes_away(#[trigger] files[i]) ==> !below(
                k,
                start.key(files[i].target),
            )) ==> #[trigger] disk.at(k) == start.at(k)
    &&& done.len() <= files.len()
    &&& forall|i: int| 0 <= i < done.len() ==> #[trigger] done[i] is Finished
    &&& forall|i: int|
        0 <= i < done.len() && #[trigger] done[i] == Outcome::Finished(Ok(())) && takes_away(
            files[i],
        ) ==> !disk.has(start.key(files[i].target))
}

proof fn lemma_withdrawn_turn(
    start: Disk,
    disk: Disk,
    after: Disk,
    files: Seq<FileView>,
    done: Seq<Outcome>,
    last: Result<(), Failure>,
)
    requires
        withdrawn(start, disk, files, done),
        done.len() < files.len(),
        deactivation_effect(disk, after, files[done.len() as int], last),
    ensures
        withdrawn(start, after, files, done.push(Outcome::Finished(last))),
{
    let n = done.len() as int;
    let longer = done.push(Outcome::Finished(last));
    assert forall|k: Key| after.has(k) implies #[trigger] after.at(k) == start.at(k) by {
        assert(after.at(k) == disk.at(k));
        assert(disk.has(k));
        assert(disk.at(k) == start.at(k));
    }
    assert forall|k: Key|
        (forall|i: int|
            0 <= i < files.len() && takes_away(#[trigger] files[i]) ==> !below(
                k,
                start.key(files[i].target),
            )) implies #[trigger] after.at(k) == start.at(k) by {
        assert(disk.at(k) == start.at(k));
        assert(takes_away(files[n]) ==> !below(k, start.key(files[n].target)));
        assert(after.at(k) == disk.at(k));
    }
    assert forall|i: int|
        0 <= i < longer.len() && #[trigger] longer[i] == Outcome::Finished(Ok(())) && takes_away(
            files[i],
        ) implies !after.has(start.key(files[i].target)) by {
        let key = start.key(files[i].target);
        if i < n {
            assert(done[i] == Outcome::Finished(Ok(())));
            if after.has(key) {
                assert(after.at(key) == disk.at(key));
            }
        }
    }
}

/// The work of deactivating `files`, one after the other.
spec fn withdrawals(files: Seq<FileView>) -> Seq<ItemView> {
    files.map_values(|f: FileView| ItemView::Deactivate(f))
}

proof fn lemma_withdrawn(
    start: Disk,
    disk: Disk,
    files: Seq<FileView>,
    done: Seq<Outcome>,
    clobber_by_default: Option<bool>,
    prefix: Seq<u8>,
    post: spec_fn(Seq<Outcome>, Disk) -> bool,
)
    requires
        forall|i: int| 0 <= i < files.len() ==> plain_source(start, #[trigger] files[i]),
        withdrawn(start, disk, files, done),
        forall|all: Seq<Outcome>, after: Disk|
            all.len() == files.len() && withdrawn(start, after, files, all) ==> #[trigger] post(
                all,
                after,
            ),
    ensures
        achieves(
            batch(withdrawals(files).skip(done.len() as int), done, clobber_by_default, prefix),
            disk,
            post,
        ),
    decreases files.len() - done.len(),
{
    broadcast use group_achieves;

    let n = done.len() as int;
    let items = withdrawals(files).skip(n);
    if n < files.len() {
        let file = files[n];
        assert(items[0] == ItemView::Deactivate(file));
        assert(plain_source(disk, file)) by {
            assert(plain_source(start, file));
            let source = disk.key(file.source->0);
            if disk.has(source) {
                assert(disk.at(source) == start.at(source));
            }
        }
        law_deactivation_attains(file, disk);
        let effect = |last: Result<(), Failure>, after: Disk|
            deactivation_effect(disk, after, file, last);
        let mid = |result: Result<Outcome, Failure>, after: Disk|
            {
                &&& result matches Ok(Outcome::Finished(last))
                &&& effect(last, after)
            };
        let program = deactivate_program(file);
        lemma_achieves_bind(
            program,
            |last: Result<(), Failure>|
                Program::Return(Ok::<Outcome, Failure>(Outcome::Finished(last))),
            disk,
            effect,
            mid,
        );
        assert(achieves(finished(program), disk, mid));
        let next = rest_of_batch(items, done, clobber_by_default, prefix);
        assert forall|result: Result<Outcome, Failure>, after: Disk| #[trigger]
            mid(result, after) implies achieves(next(result), after, post) by {
            let last = result->Ok_0->Finished_0;
            lemma_withdrawn_turn(start, disk, after, files, done, last);
            let longer = done.push(Outcome::Finished(last));
            assert(outcome_of(result) == Outcome::Finished(last));
            assert(items.skip(1) =~= withdrawals(files).skip(n + 1));
            lemma_withdrawn(start, after, files, longer, clobber_by_default, prefix, post);
        }
        lemma_achieves_bind(
            item_program(items[0], clobber_by_default, prefix),
            next,
            disk,
            mid,
            post,
        );
    } else {
        assert(items.len() == 0);
    }
}

/// When the entries of a manifest have been deactivated, the targets of those
/// that take theirs away and did not fail are gone, nothing has come in addition,
/// and all that lies elsewhere is as it was. The source of a copy must be no link.
pub proof fn law_manifest_withdraws(
    files: Seq<FileView>,
    clobber_by_default: Option<bool>,
    prefix: Seq<u8>,
    disk: Disk,
)
    requires
        forall|i: int|
            0 <= i < in_order(files).len() ==> plain_source(disk, #[trigger] in_order(files)[i]),
    ensures
        achieves(
            batch(deactivations(files), Seq::<Outcome>::empty(), clobber_by_default, prefix),
            disk,
            |outcomes: Seq<Outcome>, after: Disk|
                {
                    &&& outcomes.len() == in_order(files).len()
                    &&& withdrawn(disk, after, in_order(files).reverse(), outcomes)
                },
        ),
{
    let order = in_order(files).reverse();
    let none = Seq::<Outcome>::empty();
    assert forall|i: int| 0 <= i < order.len() implies plain_source(disk, #[trigger] order[i]) by {
        assert(order[i] == in_order(files)[order.len() - 1 - i]);
    }
    assert(withdrawals(order).skip(0) =~= deactivations(files));
    lemma_withdrawn(
        disk,
        disk,
        order,
        none,
        clobber_by_default,
        prefix,
        |outcomes: Seq<Outcome>, after: Disk|
            {
                &&& outcomes.len() == in_order(files).len()
                &&& withdrawn(disk, after, in_order(files).reverse(), outcomes)
            },
    );
}

} // verus!
