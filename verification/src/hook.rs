//! The hook registry: capability values that plugins publish under a slot, keyed by slot,
//! owning plugin and an optional name.
//!
//! The registry is generic over the stored value `H`. A slot is identified by a `TypeId`; the
//! registry only ever compares two of them.

use std::any::TypeId;
use vstd::prelude::*;

verus! {

#[verifier::external_type_specification]
#[verifier::external_body]
pub struct ExTypeId(TypeId);

/// `TypeId::eq`: two type ids compare equal exactly when they are the same id.
#[verifier::external_body]
pub(crate) fn same_slot(a: &TypeId, b: &TypeId) -> (same: bool)
    ensures
        same == (*a == *b),
{
    a == b
}

/// A capability value together with the key under which it was registered.
pub struct Hook<H> {
    pub plugin: u64,
    pub slot: TypeId,
    pub name: Option<u64>,
    pub ptr: H,
}

impl<H> Hook<H> {
    /// A hook of `plugin` for `slot`, told apart from its siblings by `name`.
    pub fn new(plugin: u64, slot: TypeId, name: Option<u64>, ptr: H) -> (hook: Self)
        ensures
            hook.plugin == plugin,
            hook.slot == slot,
            hook.name == name,
            hook.ptr == ptr,
    {
        Hook { plugin, slot, name, ptr }
    }
}

/// The hooks that one plugin has registered for one slot, in the order of registration.
pub struct Bucket<H> {
    pub slot: TypeId,
    pub plugin: u64,
    pub hooks: Vec<Hook<H>>,
}

/// The position of the first hook named `name` in `hooks`, or -1 where there is none.
pub open spec fn position_of<H>(hooks: Seq<Hook<H>>, name: Option<u64>) -> int {
    if exists|k: int| first_named(hooks, name, k) {
        choose|k: int| first_named(hooks, name, k)
    } else {
        -1
    }
}

/// `k` is the position of the first hook named `name`.
pub open spec fn first_named<H>(hooks: Seq<Hook<H>>, name: Option<u64>, k: int) -> bool {
    &&& 0 <= k < hooks.len()
    &&& hooks[k].name == name
    &&& forall|j: int| 0 <= j < k ==> (#[trigger] hooks[j]).name != name
}

/// `i` is the position of the first bucket of `plugin` for `slot`.
pub open spec fn first_bucket<H>(buckets: Seq<Bucket<H>>, slot: TypeId, plugin: u64, i: int) -> bool {
    &&& 0 <= i < buckets.len()
    &&& buckets[i].slot == slot
    &&& buckets[i].plugin == plugin
    &&& forall|j: int|
        0 <= j < i ==> !((#[trigger] buckets[j]).slot == slot && buckets[j].plugin == plugin)
}

/// The hooks of `plugin` for `slot` among `buckets`: those of its first bucket, or none.
pub open spec fn bucket_hooks<H>(buckets: Seq<Bucket<H>>, slot: TypeId, plugin: u64) -> Seq<Hook<H>> {
    if exists|i: int| first_bucket(buckets, slot, plugin, i) {
        buckets[choose|i: int| first_bucket(buckets, slot, plugin, i)].hooks@
    } else {
        Seq::empty()
    }
}

/// The first bucket of a key is unique.
pub proof fn lemma_first_bucket_unique<H>(
    buckets: Seq<Bucket<H>>,
    slot: TypeId,
    plugin: u64,
    i: int,
)
    requires
        first_bucket(buckets, slot, plugin, i),
    ensures
        bucket_hooks(buckets, slot, plugin) == buckets[i].hooks@,
{
    let c = choose|c: int| first_bucket(buckets, slot, plugin, c);
    if c < i {
        assert(!(buckets[c].slot == slot && buckets[c].plugin == plugin));
    }
    if i < c {
        assert(!(buckets[i].slot == slot && buckets[i].plugin == plugin));
    }
}

/// The first hook of a name is unique.
pub proof fn lemma_first_named_unique<H>(hooks: Seq<Hook<H>>, name: Option<u64>, k: int)
    requires
        first_named(hooks, name, k),
    ensures
        position_of(hooks, name) == k,
{
    let c = choose|c: int| first_named(hooks, name, c);
    if c < k {
        assert(hooks[c].name != name);
    }
    if k < c {
        assert(hooks[k].name != name);
    }
}

/// No hook carries the name exactly when there is no first one.
pub proof fn lemma_position_none<H>(hooks: Seq<Hook<H>>, name: Option<u64>)
    requires
        forall|j: int| 0 <= j < hooks.len() ==> (#[trigger] hooks[j]).name != name,
    ensures
        position_of(hooks, name) == -1,
{
    if exists|k: int| first_named(hooks, name, k) {
        let k = choose|k: int| first_named(hooks, name, k);
        assert(hooks[k].name != name);
    }
}

/// No bucket carries the key exactly when the key has no hooks listed.
pub proof fn lemma_no_bucket<H>(buckets: Seq<Bucket<H>>, slot: TypeId, plugin: u64)
    requires
        forall|j: int|
            0 <= j < buckets.len() ==> !((#[trigger] buckets[j]).slot == slot && buckets[j].plugin
                == plugin),
    ensures
        bucket_hooks(buckets, slot, plugin) == Seq::<Hook<H>>::empty(),
{
    if exists|i: int| first_bucket(buckets, slot, plugin, i) {
        let i = choose|i: int| first_bucket(buckets, slot, plugin, i);
        assert(!(buckets[i].slot == slot && buckets[i].plugin == plugin));
    }
}

/// Some bucket carries the slot and plugin.
pub open spec fn bucket_kept<H>(buckets: Seq<Bucket<H>>, slot: TypeId, plugin: u64) -> bool {
    exists|i: int|
        0 <= i < buckets.len() && (#[trigger] buckets[i]).slot == slot && buckets[i].plugin
            == plugin
}

/// Replacing a bucket by one of the same key changes nothing in which keys have a bucket.
pub proof fn lemma_kept_after_update<H>(
    buckets: Seq<Bucket<H>>,
    at: int,
    bucket: Bucket<H>,
    slot: TypeId,
    plugin: u64,
)
    requires
        0 <= at < buckets.len(),
        bucket.slot == buckets[at].slot,
        bucket.plugin == buckets[at].plugin,
    ensures
        bucket_kept(buckets.update(at, bucket), slot, plugin) == bucket_kept(buckets, slot, plugin),
{
    let after = buckets.update(at, bucket);
    if bucket_kept(buckets, slot, plugin) {
        let i = choose|i: int|
            0 <= i < buckets.len() && (#[trigger] buckets[i]).slot == slot && buckets[i].plugin
                == plugin;
        assert(after[i].slot == slot && after[i].plugin == plugin);
    }
    if bucket_kept(after, slot, plugin) {
        let i = choose|i: int|
            0 <= i < after.len() && (#[trigger] after[i]).slot == slot && after[i].plugin
                == plugin;
        assert(buckets[i].slot == slot && buckets[i].plugin == plugin);
    }
}

/// A new bucket gives its key a bucket and changes no other key.
pub proof fn lemma_kept_after_push<H>(
    buckets: Seq<Bucket<H>>,
    bucket: Bucket<H>,
    slot: TypeId,
    plugin: u64,
)
    ensures
        bucket_kept(buckets.push(bucket), slot, plugin) == ((slot == bucket.slot && plugin
            == bucket.plugin) || bucket_kept(buckets, slot, plugin)),
{
    let after = buckets.push(bucket);
    if bucket_kept(buckets, slot, plugin) {
        let i = choose|i: int|
            0 <= i < buckets.len() && (#[trigger] buckets[i]).slot == slot && buckets[i].plugin
                == plugin;
        assert(after[i].slot == slot && after[i].plugin == plugin);
    }
    if slot == bucket.slot && plugin == bucket.plugin {
        assert(after[buckets.len() as int].slot == slot && after[buckets.len() as int].plugin
            == plugin);
    }
    if bucket_kept(after, slot, plugin) {
        let i = choose|i: int|
            0 <= i < after.len() && (#[trigger] after[i]).slot == slot && after[i].plugin
                == plugin;
        if i < buckets.len() {
            assert(buckets[i].slot == slot && buckets[i].plugin == plugin);
        }
    }
}

/// Taking out a bucket changes nothing in which keys of other plugins have a bucket.
pub proof fn lemma_kept_after_remove<H>(
    buckets: Seq<Bucket<H>>,
    at: int,
    slot: TypeId,
    plugin: u64,
)
    requires
        0 <= at < buckets.len(),
        buckets[at].plugin != plugin,
    ensures
        bucket_kept(buckets.remove(at), slot, plugin) == bucket_kept(buckets, slot, plugin),
{
    let after = buckets.remove(at);
    if bucket_kept(buckets, slot, plugin) {
        let i = choose|i: int|
            0 <= i < buckets.len() && (#[trigger] buckets[i]).slot == slot && buckets[i].plugin
                == plugin;
        let j = if i < at {
            i
        } else {
            i - 1
        };
        assert(after[j].slot == slot && after[j].plugin == plugin);
    }
    if bucket_kept(after, slot, plugin) {
        let i = choose|i: int|
            0 <= i < after.len() && (#[trigger] after[i]).slot == slot && after[i].plugin
                == plugin;
        let j = if i < at {
            i
        } else {
            i + 1
        };
        assert(buckets[j].slot == slot && buckets[j].plugin == plugin);
    }
}

/// No two buckets carry the same slot and plugin.
pub open spec fn distinct_keys<H>(buckets: Seq<Bucket<H>>) -> bool {
    forall|i: int, j: int|
        0 <= i < j < buckets.len() ==> !((#[trigger] buckets[i]).slot == (#[trigger] buckets[j]).slot
            && buckets[i].plugin == buckets[j].plugin)
}

/// One bucket per slot and plugin, every hook filed under its own key, and no name twice in
/// a bucket.
pub open spec fn wf_buckets<H>(buckets: Seq<Bucket<H>>) -> bool {
    &&& distinct_keys(buckets)
    &&& forall|i: int, k: int|
        0 <= i < buckets.len() && 0 <= k < buckets[i].hooks@.len() ==> {
            &&& (#[trigger] buckets[i].hooks@[k]).slot == buckets[i].slot
            &&& buckets[i].hooks@[k].plugin == buckets[i].plugin
        }
    &&& forall|i: int, k: int, l: int|
        0 <= i < buckets.len() && 0 <= k < l < buckets[i].hooks@.len() ==> (
        #[trigger] buckets[i].hooks@[k]).name != (#[trigger] buckets[i].hooks@[l]).name
}

/// Two lists hold hooks of the same keys, position by position.
pub open spec fn same_keys<H>(a: Seq<Hook<H>>, b: Seq<Hook<H>>) -> bool {
    &&& a.len() == b.len()
    &&& forall|k: int|
        0 <= k < a.len() ==> (#[trigger] a[k]).name == b[k].name && a[k].slot == b[k].slot
            && a[k].plugin == b[k].plugin
}

/// Replacing a bucket by one that holds hooks of the same keys keeps the invariant.
pub proof fn lemma_update_keeps_wf<H>(buckets: Seq<Bucket<H>>, at: int, bucket: Bucket<H>)
    requires
        wf_buckets(buckets),
        0 <= at < buckets.len(),
        bucket.slot == buckets[at].slot,
        bucket.plugin == buckets[at].plugin,
        same_keys(bucket.hooks@, buckets[at].hooks@),
    ensures
        wf_buckets(buckets.update(at, bucket)),
{
    let after = buckets.update(at, bucket);
    assert forall|i: int, j: int| 0 <= i < j < after.len() implies !((#[trigger] after[i]).slot == (
    #[trigger] after[j]).slot && after[i].plugin == after[j].plugin) by {
        assert(!(buckets[i].slot == buckets[j].slot && buckets[i].plugin == buckets[j].plugin));
    }
    assert forall|i: int, k: int| 0 <= i < after.len() && 0 <= k < after[i].hooks@.len() implies {
        &&& (#[trigger] after[i].hooks@[k]).slot == after[i].slot
        &&& after[i].hooks@[k].plugin == after[i].plugin
    } by {
        if i == at {
            assert(bucket.hooks@[k].slot == buckets[at].hooks@[k].slot);
        } else {
            assert(buckets[i].hooks@[k].slot == buckets[i].slot);
        }
    }
    assert forall|i: int, k: int, l: int|
        0 <= i < after.len() && 0 <= k < l < after[i].hooks@.len() implies (
    #[trigger] after[i].hooks@[k]).name != (#[trigger] after[i].hooks@[l]).name by {
        if i == at {
            assert(bucket.hooks@[k].name == buckets[at].hooks@[k].name);
            assert(bucket.hooks@[l].name == buckets[at].hooks@[l].name);
            assert(buckets[at].hooks@[k].name != buckets[at].hooks@[l].name);
        } else {
            assert(buckets[i].hooks@[k].name != buckets[i].hooks@[l].name);
        }
    }
}

/// The hooks of a list, each paired with the plugin under which the list is kept.
pub open spec fn tagged<H>(plugin: u64, hooks: Seq<Hook<H>>) -> Seq<(u64, Hook<H>)> {
    Seq::new(hooks.len(), |k: int| (plugin, hooks[k]))
}

/// All hooks for `slot` among `buckets`, bucket after bucket, each paired with the plugin of
/// its bucket.
pub open spec fn entries_of<H>(buckets: Seq<Bucket<H>>, slot: TypeId) -> Seq<(u64, Hook<H>)>
    decreases buckets.len(),
{
    if buckets.len() == 0 {
        Seq::empty()
    } else if buckets.last().slot == slot {
        entries_of(buckets.drop_last(), slot) + tagged(buckets.last().plugin, buckets.last().hooks@)
    } else {
        entries_of(buckets.drop_last(), slot)
    }
}

/// Where no bucket belongs to a plugin, no entry is paired with it.
pub proof fn lemma_entries_without_plugin<H>(buckets: Seq<Bucket<H>>, slot: TypeId, plugin: u64)
    requires
        forall|j: int| 0 <= j < buckets.len() ==> (#[trigger] buckets[j]).plugin != plugin,
    ensures
        forall|k: int|
            0 <= k < entries_of(buckets, slot).len() ==> (#[trigger] entries_of(
                buckets,
                slot,
            )[k]).0 != plugin,
    decreases buckets.len(),
{
    if buckets.len() > 0 {
        let front = buckets.drop_last();
        assert forall|j: int| 0 <= j < front.len() implies (#[trigger] front[j]).plugin != plugin by {
            assert(front[j] == buckets[j]);
        }
        lemma_entries_without_plugin(front, slot, plugin);
        assert(buckets.last() == buckets[buckets.len() - 1]);
        assert forall|k: int| 0 <= k < entries_of(buckets, slot).len() implies (
        #[trigger] entries_of(buckets, slot)[k]).0 != plugin by {
            if k < entries_of(front, slot).len() {
                assert(entries_of(buckets, slot)[k] == entries_of(front, slot)[k]);
            }
        }
    }
}

/// Whether an entry is paired with `plugin`.
pub open spec fn owned_by<H>(plugin: u64) -> spec_fn((u64, Hook<H>)) -> bool {
    |entry: (u64, Hook<H>)| entry.0 == plugin
}

/// Of the entries of one bucket, those paired with a plugin are all of them or none.
pub proof fn lemma_filter_tagged<H>(owner: u64, hooks: Seq<Hook<H>>, plugin: u64)
    ensures
        tagged(owner, hooks).filter(owned_by(plugin)) == if owner == plugin {
            tagged(owner, hooks)
        } else {
            Seq::empty()
        },
    decreases hooks.len(),
{
    reveal(Seq::filter);
    let entries = tagged(owner, hooks);
    if hooks.len() > 0 {
        lemma_filter_tagged(owner, hooks.drop_last(), plugin);
        assert(entries.drop_last() =~= tagged(owner, hooks.drop_last()));
        if owner == plugin {
            assert(entries.drop_last().push(entries.last()) =~= entries);
        }
    } else {
        assert(entries =~= Seq::empty());
    }
}

/// Among buckets of distinct keys, the entries for a slot that are paired with a plugin are
/// the hooks of that plugin for the slot, in their order.
pub proof fn lemma_entries_by_plugin<H>(buckets: Seq<Bucket<H>>, slot: TypeId, plugin: u64)
    requires
        distinct_keys(buckets),
    ensures
        entries_of(buckets, slot).filter(owned_by(plugin)) == tagged(
            plugin,
            bucket_hooks(buckets, slot, plugin),
        ),
    decreases buckets.len(),
{
    if buckets.len() == 0 {
        reveal(Seq::filter);
        lemma_no_bucket(buckets, slot, plugin);
        assert(tagged(plugin, Seq::<Hook<H>>::empty()) =~= Seq::empty());
    } else {
        let front = buckets.drop_last();
        let last = buckets.last();
        assert(distinct_keys(front)) by {
            assert forall|i: int, j: int| 0 <= i < j < front.len() implies !((
            #[trigger] front[i]).slot == (#[trigger] front[j]).slot && front[i].plugin
                == front[j].plugin) by {
                assert(!(buckets[i].slot == buckets[j].slot && buckets[i].plugin
                    == buckets[j].plugin));
            }
        }
        lemma_entries_by_plugin(front, slot, plugin);
        assert(buckets =~= front.push(last));
        assert forall|j: int| 0 <= j < front.len() implies !((#[trigger] front[j]).slot
            == last.slot && front[j].plugin == last.plugin) by {
            assert(!(buckets[j].slot == buckets[buckets.len() - 1].slot && buckets[j].plugin
                == buckets[buckets.len() - 1].plugin));
        }
        lemma_push_bucket(front, last, slot, plugin);
        if last.slot == slot {
            Seq::filter_distributes_over_add(
                entries_of(front, slot),
                tagged(last.plugin, last.hooks@),
                owned_by(plugin),
            );
            lemma_filter_tagged(last.plugin, last.hooks@, plugin);
            if last.plugin == plugin {
                lemma_no_bucket(front, slot, plugin);
                assert(tagged(plugin, Seq::<Hook<H>>::empty()) =~= Seq::empty());
                assert(Seq::<(u64, Hook<H>)>::empty() + tagged(plugin, last.hooks@) =~= tagged(
                    plugin,
                    last.hooks@,
                ));
            } else {
                assert(tagged(plugin, bucket_hooks(front, slot, plugin)) + Seq::<
                    (u64, Hook<H>),
                >::empty() =~= tagged(plugin, bucket_hooks(front, slot, plugin)));
            }
        }
    }
}

/// Whether an entry is paired with none of `plugins`.
pub open spec fn owned_by_none<H>(plugins: Set<u64>) -> spec_fn((u64, Hook<H>)) -> bool {
    |entry: (u64, Hook<H>)| !plugins.contains(entry.0)
}

/// Of the entries of one bucket, those paired with none of some plugins are all of them or
/// none.
pub proof fn lemma_filter_tagged_none<H>(owner: u64, hooks: Seq<Hook<H>>, plugins: Set<u64>)
    ensures
        tagged(owner, hooks).filter(owned_by_none(plugins)) == if plugins.contains(owner) {
            Seq::empty()
        } else {
            tagged(owner, hooks)
        },
    decreases hooks.len(),
{
    reveal(Seq::filter);
    let entries = tagged(owner, hooks);
    if hooks.len() > 0 {
        lemma_filter_tagged_none(owner, hooks.drop_last(), plugins);
        assert(entries.drop_last() =~= tagged(owner, hooks.drop_last()));
        if !plugins.contains(owner) {
            assert(entries.drop_last().push(entries.last()) =~= entries);
        }
    } else {
        assert(entries =~= Seq::empty());
    }
}

/// Taking out a bucket of one of some plugins leaves the entries of all other plugins as
/// they were.
pub proof fn lemma_entries_without_owned<H>(
    buckets: Seq<Bucket<H>>,
    at: int,
    slot: TypeId,
    plugins: Set<u64>,
)
    requires
        0 <= at < buckets.len(),
        plugins.contains(buckets[at].plugin),
    ensures
        entries_of(buckets.remove(at), slot).filter(owned_by_none(plugins)) == entries_of(
            buckets,
            slot,
        ).filter(owned_by_none(plugins)),
    decreases buckets.len(),
{
    let after = buckets.remove(at);
    let n = buckets.len() - 1;
    let last = buckets.last();
    if at == n {
        assert(after =~= buckets.drop_last());
        if last.slot == slot {
            Seq::filter_distributes_over_add(
                entries_of(buckets.drop_last(), slot),
                tagged(last.plugin, last.hooks@),
                owned_by_none(plugins),
            );
            lemma_filter_tagged_none(last.plugin, last.hooks@, plugins);
            assert(entries_of(buckets.drop_last(), slot).filter(owned_by_none(plugins)) + Seq::<
                (u64, Hook<H>),
            >::empty() =~= entries_of(buckets.drop_last(), slot).filter(owned_by_none(plugins)));
        }
    } else {
        lemma_entries_without_owned(buckets.drop_last(), at, slot, plugins);
        assert(after.drop_last() =~= buckets.drop_last().remove(at));
        assert(after.last() == last);
        if last.slot == slot {
            Seq::filter_distributes_over_add(
                entries_of(buckets.drop_last(), slot),
                tagged(last.plugin, last.hooks@),
                owned_by_none(plugins),
            );
            Seq::filter_distributes_over_add(
                entries_of(after.drop_last(), slot),
                tagged(last.plugin, last.hooks@),
                owned_by_none(plugins),
            );
        }
    }
}

/// Where no bucket belongs to one of some plugins, every entry is paired with none of them.
pub proof fn lemma_entries_none_owned<H>(buckets: Seq<Bucket<H>>, slot: TypeId, plugins: Set<u64>)
    requires
        forall|j: int| 0 <= j < buckets.len() ==> !plugins.contains((#[trigger] buckets[j]).plugin),
    ensures
        entries_of(buckets, slot).filter(owned_by_none(plugins)) == entries_of(buckets, slot),
    decreases buckets.len(),
{
    if buckets.len() == 0 {
        reveal(Seq::filter);
    } else {
        let front = buckets.drop_last();
        let last = buckets.last();
        assert forall|j: int| 0 <= j < front.len() implies !plugins.contains(
            (#[trigger] front[j]).plugin,
        ) by {
            assert(front[j] == buckets[j]);
        }
        lemma_entries_none_owned(front, slot, plugins);
        assert(last == buckets[buckets.len() - 1]);
        if last.slot == slot {
            Seq::filter_distributes_over_add(
                entries_of(front, slot),
                tagged(last.plugin, last.hooks@),
                owned_by_none(plugins),
            );
            lemma_filter_tagged_none(last.plugin, last.hooks@, plugins);
        }
    }
}

/// Leaving out the entries of some plugins and then those of others leaves out the entries
/// of all of them.
pub proof fn lemma_owned_by_none_twice<H>(
    entries: Seq<(u64, Hook<H>)>,
    first: Set<u64>,
    second: Set<u64>,
)
    ensures
        entries.filter(owned_by_none(first)).filter(owned_by_none(second)) == entries.filter(
            owned_by_none(first.union(second)),
        ),
    decreases entries.len(),
{
    reveal(Seq::filter);
    if entries.len() > 0 {
        lemma_owned_by_none_twice(entries.drop_last(), first, second);
        let front = entries.drop_last().filter(owned_by_none(first));
        if !first.contains(entries.last().0) {
            assert(front.push(entries.last()).drop_last() =~= front);
        }
    }
}

/// Leaving out the entries of no plugin leaves all entries.
pub proof fn lemma_owned_by_none_of_none<H>(entries: Seq<(u64, Hook<H>)>)
    ensures
        entries.filter(owned_by_none(Set::empty())) == entries,
    decreases entries.len(),
{
    reveal(Seq::filter);
    if entries.len() > 0 {
        lemma_owned_by_none_of_none(entries.drop_last());
        assert(entries.drop_last().push(entries.last()) =~= entries);
    }
}

/// Among the entries that are left when those of some plugins are left out, none is paired
/// with one of these plugins.
pub proof fn lemma_none_left<H>(entries: Seq<(u64, Hook<H>)>, plugins: Set<u64>, k: int)
    requires
        0 <= k < entries.filter(owned_by_none(plugins)).len(),
    ensures
        !plugins.contains(entries.filter(owned_by_none(plugins))[k].0),
{
    entries.lemma_filter_pred(owned_by_none(plugins), k);
}

/// Taking out a bucket without hooks leaves the entries of every slot as they were.
pub proof fn lemma_entries_without_empty<H>(buckets: Seq<Bucket<H>>, at: int, slot: TypeId)
    requires
        0 <= at < buckets.len(),
        buckets[at].hooks@.len() == 0,
    ensures
        entries_of(buckets.remove(at), slot) == entries_of(buckets, slot),
    decreases buckets.len(),
{
    let after = buckets.remove(at);
    let n = buckets.len() - 1;
    if at == n {
        assert(after =~= buckets.drop_last());
        assert(tagged(buckets.last().plugin, buckets.last().hooks@) =~= Seq::empty());
        assert(entries_of(buckets.drop_last(), slot) + Seq::<(u64, Hook<H>)>::empty()
            =~= entries_of(buckets.drop_last(), slot));
    } else {
        lemma_entries_without_empty(buckets.drop_last(), at, slot);
        assert(after.drop_last() =~= buckets.drop_last().remove(at));
        assert(after.last() == buckets.last());
    }
}

/// The entries of the first `n` buckets open the list of all entries.
pub proof fn lemma_entries_prefix<H>(buckets: Seq<Bucket<H>>, slot: TypeId, n: int)
    requires
        0 <= n <= buckets.len(),
    ensures
        entries_of(buckets.take(n), slot).len() <= entries_of(buckets, slot).len(),
        forall|k: int|
            0 <= k < entries_of(buckets.take(n), slot).len() ==> #[trigger] entries_of(
                buckets,
                slot,
            )[k] == entries_of(buckets.take(n), slot)[k],
    decreases buckets.len() - n,
{
    if n < buckets.len() {
        lemma_entries_prefix(buckets, slot, n + 1);
        assert(buckets.take(n + 1).drop_last() =~= buckets.take(n));
    } else {
        assert(buckets.take(n) =~= buckets);
    }
}

/// The hook `hook` with `value` in place of its own.
pub open spec fn with_value<H>(hook: Hook<H>, value: H) -> Hook<H> {
    Hook { plugin: hook.plugin, slot: hook.slot, name: hook.name, ptr: value }
}

/// A list without the hook at `k`: the last hook takes its place.
pub open spec fn swap_removed<H>(hooks: Seq<Hook<H>>, k: int) -> Seq<Hook<H>> {
    hooks.update(k, hooks.last()).drop_last()
}

/// Replacing a bucket by one of the same key changes the hooks of that key, where the bucket
/// is the key's first, and of no other.
pub proof fn lemma_update_bucket<H>(
    buckets: Seq<Bucket<H>>,
    at: int,
    bucket: Bucket<H>,
    slot: TypeId,
    plugin: u64,
)
    requires
        0 <= at < buckets.len(),
        bucket.slot == buckets[at].slot,
        bucket.plugin == buckets[at].plugin,
    ensures
        bucket_hooks(buckets.update(at, bucket), slot, plugin) == if first_bucket(
            buckets,
            slot,
            plugin,
            at,
        ) {
            bucket.hooks@
        } else {
            bucket_hooks(buckets, slot, plugin)
        },
{
    let after = buckets.update(at, bucket);
    assert forall|i: int| first_bucket(buckets, slot, plugin, i) <==> first_bucket(
        after,
        slot,
        plugin,
        i,
    ) by {
        if first_bucket(buckets, slot, plugin, i) {
            assert forall|j: int| 0 <= j < i implies !((#[trigger] after[j]).slot == slot
                && after[j].plugin == plugin) by {
                assert(!(buckets[j].slot == slot && buckets[j].plugin == plugin));
            }
        }
        if first_bucket(after, slot, plugin, i) {
            assert forall|j: int| 0 <= j < i implies !((#[trigger] buckets[j]).slot == slot
                && buckets[j].plugin == plugin) by {
                assert(!(after[j].slot == slot && after[j].plugin == plugin));
            }
        }
    }
    if exists|i: int| first_bucket(buckets, slot, plugin, i) {
        let i = choose|i: int| first_bucket(buckets, slot, plugin, i);
        assert(first_bucket(after, slot, plugin, i));
        lemma_first_bucket_unique(buckets, slot, plugin, i);
        lemma_first_bucket_unique(after, slot, plugin, i);
        if first_bucket(buckets, slot, plugin, at) {
            lemma_first_bucket_unique(buckets, slot, plugin, at);
            if i < at {
                assert(!(buckets[i].slot == slot && buckets[i].plugin == plugin));
            }
            if at < i {
                assert(!(buckets[at].slot == slot && buckets[at].plugin == plugin));
            }
        }
    } else {
        if exists|i: int| first_bucket(after, slot, plugin, i) {
            let i = choose|i: int| first_bucket(after, slot, plugin, i);
            assert(first_bucket(buckets, slot, plugin, i));
        }
    }
}

/// A new bucket for a key that had none gives that key its hooks and changes no other.
pub proof fn lemma_push_bucket<H>(buckets: Seq<Bucket<H>>, bucket: Bucket<H>, slot: TypeId, plugin: u64)
    requires
        forall|j: int|
            0 <= j < buckets.len() ==> !((#[trigger] buckets[j]).slot == bucket.slot
                && buckets[j].plugin == bucket.plugin),
    ensures
        bucket_hooks(buckets.push(bucket), slot, plugin) == if slot == bucket.slot && plugin
            == bucket.plugin {
            bucket.hooks@
        } else {
            bucket_hooks(buckets, slot, plugin)
        },
{
    let after = buckets.push(bucket);
    let n = buckets.len() as int;
    if slot == bucket.slot && plugin == bucket.plugin {
        assert(first_bucket(after, slot, plugin, n)) by {
            assert forall|j: int| 0 <= j < n implies !((#[trigger] after[j]).slot == slot
                && after[j].plugin == plugin) by {
                assert(after[j] == buckets[j]);
            }
        }
        lemma_first_bucket_unique(after, slot, plugin, n);
    } else {
        if exists|i: int| first_bucket(buckets, slot, plugin, i) {
            let i = choose|i: int| first_bucket(buckets, slot, plugin, i);
            assert(first_bucket(after, slot, plugin, i)) by {
                assert forall|j: int| 0 <= j < i implies !((#[trigger] after[j]).slot == slot
                    && after[j].plugin == plugin) by {
                    assert(after[j] == buckets[j]);
                }
            }
            lemma_first_bucket_unique(after, slot, plugin, i);
            lemma_first_bucket_unique(buckets, slot, plugin, i);
        } else {
            if exists|i: int| first_bucket(after, slot, plugin, i) {
                let i = choose|i: int| first_bucket(after, slot, plugin, i);
                assert(i < n);
                assert(first_bucket(buckets, slot, plugin, i)) by {
                    assert(after[i] == buckets[i]);
                    assert forall|j: int| 0 <= j < i implies !((#[trigger] buckets[j]).slot
                        == slot && buckets[j].plugin == plugin) by {
                        assert(after[j] == buckets[j]);
                    }
                }
            }
        }
    }
}

/// `Vec::shrink_to_fit`: gives back spare capacity; the contents stay as they are.
#[verifier::external_body]
pub(crate) fn shrink_vec<T>(v: &mut Vec<T>)
    ensures
        final(v)@ == old(v)@,
{
    v.shrink_to_fit();
}

/// Stores the hooks of all plugins. A plugin may register several hooks for one slot as long
/// as each carries a different name.
pub struct HookRegistry<H> {
    buckets: Vec<Bucket<H>>,
}

impl<H> HookRegistry<H> {
    /// The hooks that `plugin` has registered for `slot`, in the order in which they are
    /// found; empty where it has none.
    pub closed spec fn hooks_of(&self, slot: TypeId, plugin: u64) -> Seq<Hook<H>> {
        bucket_hooks(self.buckets@, slot, plugin)
    }

    /// All hooks for `slot`, each paired with the plugin that owns it. The hooks of one
    /// plugin stand together, in the order in which they are kept; the order of the plugins
    /// is that of the registry's own bookkeeping.
    pub closed spec fn slot_entries(&self, slot: TypeId) -> Seq<(u64, Hook<H>)> {
        entries_of(self.buckets@, slot)
    }

    /// Whether the registry keeps a list for `plugin` and `slot`, be it with hooks or, after
    /// the last of them was removed, without.
    pub closed spec fn keeps(&self, slot: TypeId, plugin: u64) -> bool {
        bucket_kept(self.buckets@, slot, plugin)
    }

    /// What a plugin has hooks for, the registry keeps a list for.
    pub proof fn lemma_hooks_are_kept(&self, slot: TypeId, plugin: u64)
        requires
            self.hooks_of(slot, plugin).len() > 0,
        ensures
            self.keeps(slot, plugin),
    {
        if exists|i: int| first_bucket(self.buckets@, slot, plugin, i) {
            let i = choose|i: int| first_bucket(self.buckets@, slot, plugin, i);
            assert(self.buckets@[i].slot == slot && self.buckets@[i].plugin == plugin);
        }
    }

    /// The internal invariant: one bucket per slot and plugin, every hook filed under its own
    /// key, and no name twice in a bucket.
    pub closed spec fn wf(&self) -> bool {
        wf_buckets(self.buckets@)
    }

    /// In a registry that meets its invariant, the hooks of one plugin for one slot carry
    /// that plugin and slot, and no two of them carry the same name.
    pub proof fn lemma_names_distinct(&self, slot: TypeId, plugin: u64)
        requires
            self.wf(),
        ensures
            forall|k: int, l: int|
                0 <= k < l < self.hooks_of(slot, plugin).len() ==> (#[trigger] self.hooks_of(
                    slot,
                    plugin,
                )[k]).name != (#[trigger] self.hooks_of(slot, plugin)[l]).name,
            forall|k: int|
                0 <= k < self.hooks_of(slot, plugin).len() ==> (#[trigger] self.hooks_of(
                    slot,
                    plugin,
                )[k]).slot == slot && self.hooks_of(slot, plugin)[k].plugin == plugin,
    {
        if exists|i: int| first_bucket(self.buckets@, slot, plugin, i) {
            let i = choose|i: int| first_bucket(self.buckets@, slot, plugin, i);
            let hooks = self.buckets@[i].hooks@;
            assert forall|k: int, l: int| 0 <= k < l < hooks.len() implies (#[trigger] hooks[k]).name
                != (#[trigger] hooks[l]).name by {
                assert(self.buckets@[i].hooks@[k].name != self.buckets@[i].hooks@[l].name);
            }
            assert forall|k: int| 0 <= k < hooks.len() implies (#[trigger] hooks[k]).slot == slot
                && hooks[k].plugin == plugin by {
                assert(self.buckets@[i].hooks@[k].slot == self.buckets@[i].slot);
            }
        }
    }

    /// Of all hooks for a slot, those paired with a plugin are the hooks of that plugin for
    /// the slot, in the order in which they are kept.
    pub proof fn lemma_slot_entries_by_plugin(&self, slot: TypeId, plugin: u64)
        requires
            self.wf(),
        ensures
            self.slot_entries(slot).filter(owned_by(plugin)) == tagged(
                plugin,
                self.hooks_of(slot, plugin),
            ),
    {
        lemma_entries_by_plugin(self.buckets@, slot, plugin);
    }

    /// An empty registry.
    pub fn new() -> (registry: Self)
        ensures
            registry.wf(),
            forall|slot: TypeId, plugin: u64|
                #[trigger] registry.hooks_of(slot, plugin) == Seq::<Hook<H>>::empty(),
            forall|slot: TypeId| #[trigger] registry.slot_entries(slot).len() == 0,
            forall|slot: TypeId, plugin: u64| !#[trigger] registry.keeps(slot, plugin),
    {
        let registry = HookRegistry { buckets: Vec::new() };
        proof {
            assert forall|slot: TypeId, plugin: u64|
                #[trigger] registry.hooks_of(slot, plugin) == Seq::<Hook<H>>::empty() by {
                lemma_no_bucket(registry.buckets@, slot, plugin);
            }
        }
        registry
    }

    /// The position of the first bucket of `plugin` for `slot`.
    fn bucket_index(&self, slot: &TypeId, plugin: u64) -> (found: Option<usize>)
        ensures
            found is Some ==> first_bucket(self.buckets@, *slot, plugin, found->0 as int),
            found is Some ==> self.hooks_of(*slot, plugin) == self.buckets@[found->0 as int].hooks@,
            found is None ==> forall|j: int|
                0 <= j < self.buckets@.len() ==> !((#[trigger] self.buckets@[j]).slot == *slot
                    && self.buckets@[j].plugin == plugin),
            found is None ==> self.hooks_of(*slot, plugin) == Seq::<Hook<H>>::empty(),
    {
        let mut i: usize = 0;
        while i < self.buckets.len()
            invariant
                0 <= i <= self.buckets@.len(),
                forall|j: int|
                    0 <= j < i ==> !((#[trigger] self.buckets@[j]).slot == *slot
                        && self.buckets@[j].plugin == plugin),
            decreases self.buckets@.len() - i,
        {
            if self.buckets[i].plugin == plugin && same_slot(&self.buckets[i].slot, slot) {
                proof {
                    lemma_first_bucket_unique(self.buckets@, *slot, plugin, i as int);
                }
                return Some(i);
            }
            i += 1;
        }
        proof {
            lemma_no_bucket(self.buckets@, *slot, plugin);
        }
        None
    }

    /// Gets whether any hooks have been added by the specified plugin for a hook slot.
    pub fn exists_any(&self, slot: TypeId, plugin: u64) -> (found: bool)
        ensures
            found == (self.hooks_of(slot, plugin).len() > 0),
    {
        self.get_first_hook(plugin, slot).is_some()
    }

    /// Gets whether a hook with the exact name was added by the specified plugin for a hook
    /// slot.
    pub fn exists_exact(&self, slot: TypeId, plugin: u64, name: Option<u64>) -> (found: bool)
        ensures
            found == (position_of(self.hooks_of(slot, plugin), name) >= 0),
    {
        self.get_exact_hook(plugin, slot, name).is_some()
    }

    /// The first hook added by a plugin for the hook slot, with its key.
    pub fn get_first_hook(&self, plugin: u64, slot: TypeId) -> (hook: Option<&Hook<H>>)
        ensures
            hook is Some <==> self.hooks_of(slot, plugin).len() > 0,
            hook is Some ==> *hook->0 == self.hooks_of(slot, plugin)[0],
    {
        match self.bucket_index(&slot, plugin) {
            Some(i) => {
                if self.buckets[i].hooks.len() > 0 {
                    Some(&self.buckets[i].hooks[0])
                } else {
                    None
                }
            },
            None => None,
        }
    }

    /// The hook with the specified name added by a plugin for the hook slot, with its key.
    pub fn get_exact_hook(&self, plugin: u64, slot: TypeId, name: Option<u64>) -> (hook: Option<
        &Hook<H>,
    >)
        ensures
            hook is Some <==> position_of(self.hooks_of(slot, plugin), name) >= 0,
            hook is Some ==> *hook->0 == self.hooks_of(slot, plugin)[position_of(
                self.hooks_of(slot, plugin),
                name,
            )],
    {
        match self.bucket_index(&slot, plugin) {
            Some(i) => {
                match hook_index(&self.buckets[i].hooks, name) {
                    Some(k) => Some(&self.buckets[i].hooks[k]),
                    None => None,
                }
            },
            None => {
                proof {
                    lemma_position_none(self.hooks_of(slot, plugin), name);
                }
                None
            },
        }
    }

    /// Get the first value added by a plugin for the hook slot.
    pub fn get_first(&self, slot: TypeId, plugin: u64) -> (value: Option<&H>)
        ensures
            value is Some <==> self.hooks_of(slot, plugin).len() > 0,
            value is Some ==> *value->0 == self.hooks_of(slot, plugin)[0].ptr,
    {
        match self.get_first_hook(plugin, slot) {
            Some(hook) => Some(&hook.ptr),
            None => None,
        }
    }

    /// Get the value with the specified name added by a plugin for the hook slot.
    pub fn get_exact(&self, slot: TypeId, plugin: u64, name: Option<u64>) -> (value: Option<&H>)
        ensures
            value is Some <==> position_of(self.hooks_of(slot, plugin), name) >= 0,
            value is Some ==> *value->0 == self.hooks_of(slot, plugin)[position_of(
                self.hooks_of(slot, plugin),
                name,
            )].ptr,
    {
        match self.get_exact_hook(plugin, slot, name) {
            Some(hook) => Some(&hook.ptr),
            None => None,
        }
    }

    /// Get the first value added by a plugin for the hook slot, to change it in place.
    pub fn get_first_mut(&mut self, slot: TypeId, plugin: u64) -> (value: Option<&mut H>)
        ensures
            old(self).wf() ==> final(self).wf(),
            forall|s: TypeId, p: u64| #[trigger] final(self).keeps(s, p) == old(self).keeps(s, p),
            value is Some <==> old(self).hooks_of(slot, plugin).len() > 0,
            value is Some ==> *value->0 == old(self).hooks_of(slot, plugin)[0].ptr,
            value is Some ==> final(self).hooks_of(slot, plugin) =~= old(self).hooks_of(
                slot,
                plugin,
            ).update(0, with_value(old(self).hooks_of(slot, plugin)[0], *final(value->0))),
            value is None ==> *final(self) == *old(self),
            forall|s: TypeId, p: u64|
                !(s == slot && p == plugin) ==> #[trigger] final(self).hooks_of(s, p) == old(
                    self,
                ).hooks_of(s, p),
    {
        self.plugin_slot_hooks_mut(slot, plugin, 0)
    }

    /// Get the value with the specified name added by a plugin for the hook slot, to change
    /// it in place.
    pub fn get_exact_mut(&mut self, slot: TypeId, plugin: u64, name: Option<u64>) -> (value: Option<
        &mut H,
    >)
        ensures
            old(self).wf() ==> final(self).wf(),
            forall|s: TypeId, p: u64| #[trigger] final(self).keeps(s, p) == old(self).keeps(s, p),
            value is Some <==> position_of(old(self).hooks_of(slot, plugin), name) >= 0,
            value is Some ==> {
                let hooks = old(self).hooks_of(slot, plugin);
                let k = position_of(hooks, name);
                &&& *value->0 == hooks[k].ptr
                &&& final(self).hooks_of(slot, plugin) =~= hooks.update(
                    k,
                    with_value(hooks[k], *final(value->0)),
                )
            },
            value is None ==> *final(self) == *old(self),
            forall|s: TypeId, p: u64|
                !(s == slot && p == plugin) ==> #[trigger] final(self).hooks_of(s, p) == old(
                    self,
                ).hooks_of(s, p),
    {
        match self.bucket_index(&slot, plugin) {
            Some(i) => {
                match hook_index(&self.buckets[i].hooks, name) {
                    Some(k) => self.plugin_slot_hooks_mut(slot, plugin, k),
                    None => None,
                }
            },
            None => {
                proof {
                    lemma_position_none(Seq::<Hook<H>>::empty(), name);
                }
                None
            },
        }
    }

    /// Get the value at position `index` among those added by a plugin for the specified
    /// slot, to change it in place.
    pub fn plugin_slot_hooks_mut(&mut self, slot: TypeId, plugin: u64, index: usize) -> (value:
        Option<&mut H>)
        ensures
            old(self).wf() ==> final(self).wf(),
            forall|s: TypeId, p: u64| #[trigger] final(self).keeps(s, p) == old(self).keeps(s, p),
            value is Some <==> index < old(self).hooks_of(slot, plugin).len(),
            value is Some ==> *value->0 == old(self).hooks_of(slot, plugin)[index as int].ptr,
            value is Some ==> final(self).hooks_of(slot, plugin) =~= old(self).hooks_of(
                slot,
                plugin,
            ).update(
                index as int,
                with_value(old(self).hooks_of(slot, plugin)[index as int], *final(value->0)),
            ),
            value is None ==> *final(self) == *old(self),
            forall|s: TypeId, p: u64|
                !(s == slot && p == plugin) ==> #[trigger] final(self).hooks_of(s, p) == old(
                    self,
                ).hooks_of(s, p),
    {
        let ghost before = self.buckets@;
        match self.bucket_index(&slot, plugin) {
            Some(i) => {
                if index < self.buckets[i].hooks.len() {
                    proof {
                        // Whatever value is written through the reference, the bucket keeps
                        // its key and its hooks keep theirs.
                        assert forall|bucket: Bucket<H>, s: TypeId, p: u64|
                            bucket.slot == before[i as int].slot && bucket.plugin
                                == before[i as int].plugin implies #[trigger] bucket_hooks(
                            before.update(i as int, bucket),
                            s,
                            p,
                        ) == if first_bucket(before, s, p, i as int) {
                            bucket.hooks@
                        } else {
                            bucket_hooks(before, s, p)
                        } by {
                            lemma_update_bucket(before, i as int, bucket, s, p);
                        }
                        assert forall|s: TypeId, p: u64|
                            !(s == slot && p == plugin) implies !first_bucket(
                            before,
                            s,
                            p,
                            i as int,
                        ) by {}
                        assert forall|bucket: Bucket<H>, s: TypeId, p: u64|
                            bucket.slot == before[i as int].slot && bucket.plugin
                                == before[i as int].plugin implies #[trigger] bucket_kept(
                            before.update(i as int, bucket),
                            s,
                            p,
                        ) == bucket_kept(before, s, p) by {
                            lemma_kept_after_update(before, i as int, bucket, s, p);
                        }
                        if wf_buckets(before) {
                            assert forall|bucket: Bucket<H>|
                                bucket.slot == before[i as int].slot && bucket.plugin
                                    == before[i as int].plugin && same_keys(
                                    bucket.hooks@,
                                    before[i as int].hooks@,
                                ) implies wf_buckets(#[trigger] before.update(i as int, bucket)) by {
                                lemma_update_keeps_wf(before, i as int, bucket);
                            }
                        }
                    }
                    Some(&mut self.buckets[i].hooks[index].ptr)
                } else {
                    None
                }
            },
            None => None,
        }
    }

    /// Get the values added by a plugin for the specified slot, in the order in which they
    /// are kept. This is often a single value unless names are used to register several.
    pub fn plugin_slot_hooks(&self, slot: TypeId, plugin: u64) -> (values: Vec<&H>)
        ensures
            values@.len() == self.hooks_of(slot, plugin).len(),
            forall|k: int|
                0 <= k < values@.len() ==> *(#[trigger] values@[k]) == self.hooks_of(
                    slot,
                    plugin,
                )[k].ptr,
    {
        let mut values: Vec<&H> = Vec::new();
        match self.bucket_index(&slot, plugin) {
            Some(i) => {
                let mut k: usize = 0;
                while k < self.buckets[i].hooks.len()
                    invariant
                        i < self.buckets@.len(),
                        0 <= k <= self.buckets@[i as int].hooks@.len(),
                        values@.len() == k,
                        forall|j: int|
                            0 <= j < k ==> *(#[trigger] values@[j])
                                == self.buckets@[i as int].hooks@[j].ptr,
                    decreases self.buckets@[i as int].hooks@.len() - k,
                {
                    values.push(&self.buckets[i].hooks[k].ptr);
                    k += 1;
                }
            },
            None => {},
        }
        values
    }

    /// Get the values of all plugins for the specified slot, each with the id of the plugin
    /// that registered it.
    pub fn slot_hooks_and_plugin(&self, slot: TypeId) -> (values: Vec<(u64, &H)>)
        ensures
            values@.len() == self.slot_entries(slot).len(),
            forall|k: int|
                0 <= k < values@.len() ==> (#[trigger] values@[k]).0 == self.slot_entries(
                    slot,
                )[k].0 && *values@[k].1 == self.slot_entries(slot)[k].1.ptr,
    {
        let mut values: Vec<(u64, &H)> = Vec::new();
        let mut i: usize = 0;
        proof {
            assert(self.buckets@.take(0) =~= Seq::<Bucket<H>>::empty());
        }
        while i < self.buckets.len()
            invariant
                0 <= i <= self.buckets@.len(),
                values@.len() == entries_of(self.buckets@.take(i as int), slot).len(),
                forall|k: int|
                    0 <= k < values@.len() ==> (#[trigger] values@[k]).0 == entries_of(
                        self.buckets@.take(i as int),
                        slot,
                    )[k].0 && *values@[k].1 == entries_of(
                        self.buckets@.take(i as int),
                        slot,
                    )[k].1.ptr,
            decreases self.buckets@.len() - i,
        {
            let ghost front = entries_of(self.buckets@.take(i as int), slot);
            proof {
                assert(self.buckets@.take(i + 1).drop_last() =~= self.buckets@.take(i as int));
                assert(self.buckets@.take(i + 1).last() == self.buckets@[i as int]);
            }
            if same_slot(&self.buckets[i].slot, &slot) {
                let plugin = self.buckets[i].plugin;
                let mut k: usize = 0;
                while k < self.buckets[i].hooks.len()
                    invariant
                        i < self.buckets@.len(),
                        plugin == self.buckets@[i as int].plugin,
                        0 <= k <= self.buckets@[i as int].hooks@.len(),
                        values@.len() == front.len() + k,
                        forall|j: int|
                            0 <= j < front.len() ==> (#[trigger] values@[j]).0 == front[j].0
                                && *values@[j].1 == front[j].1.ptr,
                        forall|j: int|
                            0 <= j < k ==> (#[trigger] values@[front.len() + j]).0 == plugin
                                && *values@[front.len() + j].1
                                == self.buckets@[i as int].hooks@[j].ptr,
                    decreases self.buckets@[i as int].hooks@.len() - k,
                {
                    values.push((plugin, &self.buckets[i].hooks[k].ptr));
                    k += 1;
                }
                proof {
                    let all = entries_of(self.buckets@.take(i + 1), slot);
                    assert(all == front + tagged(plugin, self.buckets@[i as int].hooks@));
                    assert forall|j: int| 0 <= j < values@.len() implies (#[trigger] values@[j]).0
                        == all[j].0 && *values@[j].1 == all[j].1.ptr by {
                        if j >= front.len() {
                            assert(values@[front.len() + (j - front.len())].0 == plugin);
                        }
                    }
                }
            }
            i += 1;
        }
        proof {
            assert(self.buckets@.take(self.buckets@.len() as int) =~= self.buckets@);
        }
        values
    }

    /// Where the entry at position `index` for `slot` is kept: its bucket and its place there.
    fn locate(&self, slot: &TypeId, index: usize) -> (found: Option<(usize, usize)>)
        ensures
            found is Some <==> index < self.slot_entries(*slot).len(),
            found is Some ==> {
                let (i, k) = found->0;
                &&& i < self.buckets@.len()
                &&& self.buckets@[i as int].slot == *slot
                &&& k < self.buckets@[i as int].hooks@.len()
                &&& self.slot_entries(*slot)[index as int] == (
                    self.buckets@[i as int].plugin,
                    self.buckets@[i as int].hooks@[k as int],
                )
            },
    {
        let mut i: usize = 0;
        let mut seen: usize = 0;
        proof {
            assert(self.buckets@.take(0) =~= Seq::<Bucket<H>>::empty());
        }
        while i < self.buckets.len()
            invariant
                0 <= i <= self.buckets@.len(),
                seen <= index,
                seen == entries_of(self.buckets@.take(i as int), *slot).len(),
            decreases self.buckets@.len() - i,
        {
            proof {
                assert(self.buckets@.take(i + 1).drop_last() =~= self.buckets@.take(i as int));
                assert(self.buckets@.take(i + 1).last() == self.buckets@[i as int]);
            }
            if same_slot(&self.buckets[i].slot, slot) {
                let here = self.buckets[i].hooks.len();
                if index - seen < here {
                    proof {
                        lemma_entries_prefix(self.buckets@, *slot, i + 1);
                    }
                    return Some((i, index - seen));
                }
                seen = seen + here;
            }
            i += 1;
        }
        proof {
            assert(self.buckets@.take(self.buckets@.len() as int) =~= self.buckets@);
        }
        None
    }

    /// Get the value at position `index` among those of all plugins for the specified slot,
    /// with the id of the plugin that registered it, to change it in place.
    pub fn slot_hooks_and_plugin_mut(&mut self, slot: TypeId, index: usize) -> (value: Option<
        (u64, &mut H),
    >)
        requires
            old(self).wf(),
        ensures
            final(self).wf(),
            forall|s: TypeId, p: u64| #[trigger] final(self).keeps(s, p) == old(self).keeps(s, p),
            value is Some <==> index < old(self).slot_entries(slot).len(),
            value is Some ==> {
                let entry = old(self).slot_entries(slot)[index as int];
                let hooks = old(self).hooks_of(slot, entry.0);
                let k = position_of(hooks, entry.1.name);
                &&& (value->0).0 == entry.0
                &&& *(value->0).1 == entry.1.ptr
                &&& 0 <= k < hooks.len()
                &&& hooks[k] == entry.1
                &&& final(self).hooks_of(slot, entry.0) =~= hooks.update(
                    k,
                    with_value(entry.1, *final((value->0).1)),
                )
            },
            value is Some ==> forall|s: TypeId, p: u64|
                !(s == slot && p == old(self).slot_entries(slot)[index as int].0)
                    ==> #[trigger] final(self).hooks_of(s, p) == old(self).hooks_of(s, p),
            value is None ==> *final(self) == *old(self),
    {
        match self.locate(&slot, index) {
            Some((i, k)) => {
                let plugin = self.buckets[i].plugin;
                proof {
                    assert(first_bucket(self.buckets@, slot, plugin, i as int)) by {
                        assert forall|j: int| 0 <= j < i implies !((
                        #[trigger] self.buckets@[j]).slot == slot && self.buckets@[j].plugin
                            == plugin) by {
                            assert(!(self.buckets@[j].slot == self.buckets@[i as int].slot
                                && self.buckets@[j].plugin == self.buckets@[i as int].plugin));
                        }
                    }
                    lemma_first_bucket_unique(self.buckets@, slot, plugin, i as int);
                    let hooks = self.buckets@[i as int].hooks@;
                    assert(self.hooks_of(slot, plugin) == hooks);
                    assert(first_named(hooks, hooks[k as int].name, k as int)) by {
                        assert forall|j: int| 0 <= j < k implies (#[trigger] hooks[j]).name
                            != hooks[k as int].name by {
                            assert(self.buckets@[i as int].hooks@[j].name
                                != self.buckets@[i as int].hooks@[k as int].name);
                        }
                    }
                    lemma_first_named_unique(hooks, hooks[k as int].name, k as int);
                }
                match self.plugin_slot_hooks_mut(slot, plugin, k) {
                    Some(value) => Some((plugin, value)),
                    None => None,
                }
            },
            None => None,
        }
    }

    /// Register a hook for a slot with the given plugin and optional name. Where the plugin
    /// already has a hook of that name for the slot, nothing changes and the value is handed
    /// back.
    pub fn register(&mut self, slot: TypeId, hook: H, plugin: u64, name: Option<u64>) -> (result:
        Result<(), H>)
        ensures
            old(self).wf() ==> final(self).wf(),
            position_of(old(self).hooks_of(slot, plugin), name) >= 0 ==> result == Err::<(), H>(
                hook,
            ) && *final(self) == *old(self),
            position_of(old(self).hooks_of(slot, plugin), name) < 0 ==> result is Ok,
            position_of(old(self).hooks_of(slot, plugin), name) < 0 ==> final(self).hooks_of(
                slot,
                plugin,
            ) == old(self).hooks_of(slot, plugin).push((Hook { plugin, slot, name, ptr: hook })),
            position_of(final(self).hooks_of(slot, plugin), name) >= 0,
            forall|s: TypeId, p: u64|
                #[trigger] final(self).keeps(s, p) == ((s == slot && p == plugin) || old(
                    self,
                ).keeps(s, p)),
            forall|s: TypeId, p: u64|
                !(s == slot && p == plugin) ==> #[trigger] final(self).hooks_of(s, p) == old(
                    self,
                ).hooks_of(s, p),
    {
        let ghost before = self.buckets@;
        match self.bucket_index(&slot, plugin) {
            Some(i) => {
                match hook_index(&self.buckets[i].hooks, name) {
                    Some(_) => {
                        proof {
                            assert(first_bucket(before, slot, plugin, i as int));
                        }
                        Err(hook)
                    },
                    None => {
                        proof {
                            lemma_position_none(self.buckets@[i as int].hooks@, name);
                        }
                        self.buckets[i].hooks.push(Hook::new(plugin, slot, name, hook));
                        proof {
                            let after = self.buckets@;
                            assert(after =~= before.update(i as int, after[i as int]));
                            assert forall|s: TypeId, p: u64|
                                #[trigger] self.keeps(s, p) == ((s == slot && p == plugin) || old(
                                    self,
                                ).keeps(s, p)) by {
                                lemma_kept_after_update(before, i as int, after[i as int], s, p);
                                assert(first_bucket(before, slot, plugin, i as int));
                            }
                            assert forall|s: TypeId, p: u64| #[trigger]
                                bucket_hooks(after, s, p) == if first_bucket(
                                    before,
                                    s,
                                    p,
                                    i as int,
                                ) {
                                    after[i as int].hooks@
                                } else {
                                    bucket_hooks(before, s, p)
                                } by {
                                lemma_update_bucket(before, i as int, after[i as int], s, p);
                            }
                            assert forall|s: TypeId, p: u64|
                                !(s == slot && p == plugin) implies #[trigger] self.hooks_of(
                                s,
                                p,
                            ) == old(self).hooks_of(s, p) by {
                                assert(!first_bucket(before, s, p, i as int));
                            }
                            assert(position_of(self.hooks_of(slot, plugin), name) >= 0) by {
                                assert(first_bucket(before, slot, plugin, i as int));
                                let hooks = after[i as int].hooks@;
                                let at = before[i as int].hooks@.len() as int;
                                assert(self.hooks_of(slot, plugin) == hooks);
                                assert(first_named(hooks, name, at)) by {
                                    assert forall|j: int| 0 <= j < at implies (
                                    #[trigger] hooks[j]).name != name by {
                                        assert(hooks[j] == before[i as int].hooks@[j]);
                                    }
                                }
                                lemma_first_named_unique(hooks, name, at);
                            }
                            if old(self).wf() {
                                assert forall|k: int, l: int|
                                    0 <= k < l < after[i as int].hooks@.len() implies (
                                #[trigger] after[i as int].hooks@[k]).name != (
                                #[trigger] after[i as int].hooks@[l]).name by {
                                    if l < before[i as int].hooks@.len() {
                                        assert(before[i as int].hooks@[k].name
                                            != before[i as int].hooks@[l].name);
                                    } else {
                                        assert(before[i as int].hooks@[k].name != name);
                                    }
                                }
                                assert(self.wf());
                            }
                        }
                        Ok(())
                    },
                }
            },
            None => {
                proof {
                    lemma_position_none(Seq::<Hook<H>>::empty(), name);
                }
                let mut hooks: Vec<Hook<H>> = Vec::new();
                hooks.push(Hook::new(plugin, slot, name, hook));
                let bucket = Bucket { slot, plugin, hooks };
                self.buckets.push(bucket);
                proof {
                    let after = self.buckets@;
                    assert forall|s: TypeId, p: u64|
                        #[trigger] self.keeps(s, p) == ((s == slot && p == plugin) || old(
                            self,
                        ).keeps(s, p)) by {
                        lemma_kept_after_push(before, bucket, s, p);
                    }
                    assert forall|s: TypeId, p: u64| #[trigger]
                        bucket_hooks(after, s, p) == if s == slot && p == plugin {
                            bucket.hooks@
                        } else {
                            bucket_hooks(before, s, p)
                        } by {
                        lemma_push_bucket(before, bucket, s, p);
                    }
                    assert(bucket.hooks@ =~= Seq::<Hook<H>>::empty().push(
                        (Hook { plugin, slot, name, ptr: hook }),
                    ));
                    assert(position_of(self.hooks_of(slot, plugin), name) >= 0) by {
                        assert(first_named(bucket.hooks@, name, 0));
                        lemma_first_named_unique(bucket.hooks@, name, 0);
                    }
                    if old(self).wf() {
                        assert(self.wf());
                    }
                }
                Ok(())
            },
        }
    }

    /// Remove the hook of the given plugin, slot and name, and return its value if there was
    /// one. The last hook of that plugin and slot takes the freed place.
    pub fn remove(&mut self, slot: TypeId, plugin: u64, name: Option<u64>) -> (removed: Option<H>)
        ensures
            old(self).wf() ==> final(self).wf(),
            forall|s: TypeId, p: u64| #[trigger] final(self).keeps(s, p) == old(self).keeps(s, p),
            position_of(old(self).hooks_of(slot, plugin), name) < 0 ==> removed is None
                && *final(self) == *old(self),
            position_of(old(self).hooks_of(slot, plugin), name) >= 0 ==> {
                let hooks = old(self).hooks_of(slot, plugin);
                let k = position_of(hooks, name);
                &&& removed == Some(hooks[k].ptr)
                &&& final(self).hooks_of(slot, plugin) == swap_removed(hooks, k)
            },
            forall|s: TypeId, p: u64|
                !(s == slot && p == plugin) ==> #[trigger] final(self).hooks_of(s, p) == old(
                    self,
                ).hooks_of(s, p),
    {
        let ghost before = self.buckets@;
        match self.bucket_index(&slot, plugin) {
            Some(i) => {
                match hook_index(&self.buckets[i].hooks, name) {
                    Some(k) => {
                        let hook = self.buckets[i].hooks.swap_remove(k);
                        proof {
                            let after = self.buckets@;
                            assert(after =~= before.update(i as int, after[i as int]));
                            assert forall|s: TypeId, p: u64| #[trigger]
                                self.keeps(s, p) == old(self).keeps(s, p) by {
                                lemma_kept_after_update(before, i as int, after[i as int], s, p);
                            }
                            assert forall|s: TypeId, p: u64| #[trigger]
                                bucket_hooks(after, s, p) == if first_bucket(
                                    before,
                                    s,
                                    p,
                                    i as int,
                                ) {
                                    after[i as int].hooks@
                                } else {
                                    bucket_hooks(before, s, p)
                                } by {
                                lemma_update_bucket(before, i as int, after[i as int], s, p);
                            }
                            assert forall|s: TypeId, p: u64|
                                !(s == slot && p == plugin) implies #[trigger] self.hooks_of(
                                s,
                                p,
                            ) == old(self).hooks_of(s, p) by {
                                assert(!first_bucket(before, s, p, i as int));
                            }
                            if old(self).wf() {
                                let olds = before[i as int].hooks@;
                                let news = after[i as int].hooks@;
                                assert forall|a: int, b: int| 0 <= a < b < news.len() implies (
                                #[trigger] news[a]).name != (#[trigger] news[b]).name by {
                                    let aa = if a == k {
                                        olds.len() - 1
                                    } else {
                                        a
                                    };
                                    let bb = if b == k {
                                        olds.len() - 1
                                    } else {
                                        b
                                    };
                                    assert(news[a] == olds[aa] && news[b] == olds[bb]);
                                    if aa < bb {
                                        assert(olds[aa].name != olds[bb].name);
                                    } else {
                                        assert(olds[bb].name != olds[aa].name);
                                    }
                                }
                                assert forall|a: int| 0 <= a < news.len() implies (
                                #[trigger] news[a]).slot == after[i as int].slot && news[a].plugin
                                    == after[i as int].plugin by {
                                    let aa = if a == k {
                                        olds.len() - 1
                                    } else {
                                        a
                                    };
                                    assert(news[a] == olds[aa]);
                                }
                                assert(self.wf());
                            }
                        }
                        Some(hook.ptr)
                    },
                    None => None,
                }
            },
            None => {
                proof {
                    lemma_position_none(Seq::<Hook<H>>::empty(), name);
                }
                None
            },
        }
    }

    /// Drop what the registry keeps for plugins and slots that have no hooks left, and give
    /// back spare capacity. Afterwards the registry keeps a list for a plugin and slot only
    /// where the plugin has hooks for the slot. What can be found in the registry stays the
    /// same.
    pub fn shrink_to_fit(&mut self)
        requires
            old(self).wf(),
        ensures
            final(self).wf(),
            forall|s: TypeId, p: u64|
                #[trigger] final(self).keeps(s, p) <==> old(self).hooks_of(s, p).len() > 0,
            forall|s: TypeId, p: u64| #[trigger]
                final(self).hooks_of(s, p) == old(self).hooks_of(s, p),
            forall|s: TypeId| #[trigger] final(self).slot_entries(s) == old(self).slot_entries(s),
    {
        let mut i: usize = 0;
        while i < self.buckets.len()
            invariant
                0 <= i <= self.buckets@.len(),
                self.wf(),
                forall|j: int| 0 <= j < i ==> (#[trigger] self.buckets@[j]).hooks@.len() > 0,
                forall|s: TypeId, p: u64| #[trigger]
                    self.hooks_of(s, p) == old(self).hooks_of(s, p),
                forall|s: TypeId| #[trigger] self.slot_entries(s) == old(self).slot_entries(s),
            decreases self.buckets@.len() - i,
        {
            if self.buckets[i].hooks.len() == 0 {
                let ghost prev = *self;
                let ghost before = self.buckets@;
                let ghost was_wf = self.wf();
                self.buckets.remove(i);
                proof {
                    let after = self.buckets@;
                    assert forall|j: int| 0 <= j < after.len() implies after[j] == before[if j
                        < i {
                        j
                    } else {
                        j + 1
                    }] by {}
                    assert forall|s: TypeId, p: u64| #[trigger]
                        self.hooks_of(s, p) == old(self).hooks_of(s, p) by {
                        lemma_remove_empty_bucket(before, i as int, s, p);
                        assert(prev.hooks_of(s, p) == old(self).hooks_of(s, p));
                    }
                    assert forall|s: TypeId| #[trigger]
                        self.slot_entries(s) == old(self).slot_entries(s) by {
                        lemma_entries_without_empty(before, i as int, s);
                        assert(prev.slot_entries(s) == old(self).slot_entries(s));
                    }
                    if was_wf {
                        assert(self.wf());
                    }
                }
            } else {
                i += 1;
            }
        }
        let ghost prev = *self;
        shrink_vec(&mut self.buckets);
        proof {
            assert forall|s: TypeId, p: u64| #[trigger]
                self.hooks_of(s, p) == old(self).hooks_of(s, p) by {
                assert(prev.hooks_of(s, p) == old(self).hooks_of(s, p));
            }
            assert forall|s: TypeId| #[trigger]
                self.slot_entries(s) == old(self).slot_entries(s) by {
                assert(prev.slot_entries(s) == old(self).slot_entries(s));
            }
            // Every list that is left has hooks, and it is the only list of its key.
            assert forall|s: TypeId, p: u64|
                #[trigger] self.keeps(s, p) <==> old(self).hooks_of(s, p).len() > 0 by {
                if self.keeps(s, p) {
                    let i = choose|i: int|
                        0 <= i < self.buckets@.len() && (#[trigger] self.buckets@[i]).slot == s
                            && self.buckets@[i].plugin == p;
                    assert(first_bucket(self.buckets@, s, p, i)) by {
                        assert forall|j: int| 0 <= j < i implies !((
                        #[trigger] self.buckets@[j]).slot == s && self.buckets@[j].plugin == p) by {
                            assert(!(self.buckets@[j].slot == self.buckets@[i].slot
                                && self.buckets@[j].plugin == self.buckets@[i].plugin));
                        }
                    }
                    lemma_first_bucket_unique(self.buckets@, s, p, i);
                    assert(self.buckets@[i].hooks@.len() > 0);
                }
                if self.hooks_of(s, p).len() > 0 {
                    self.lemma_hooks_are_kept(s, p);
                }
            }
        }
    }

    /// Remove all hooks added by a plugin, whatever their slot.
    pub fn remove_plugin_hooks(&mut self, plugin: u64)
        ensures
            old(self).wf() ==> final(self).wf(),
            forall|slot: TypeId| #[trigger]
                final(self).hooks_of(slot, plugin) == Seq::<Hook<H>>::empty(),
            forall|slot: TypeId| !#[trigger] final(self).keeps(slot, plugin),
            forall|slot: TypeId, other: u64|
                other != plugin ==> #[trigger] final(self).keeps(slot, other) == old(self).keeps(
                    slot,
                    other,
                ),
            forall|slot: TypeId, k: int|
                0 <= k < final(self).slot_entries(slot).len() ==> (#[trigger] final(self).slot_entries(
                    slot,
                )[k]).0 != plugin,
            forall|slot: TypeId, other: u64|
                other != plugin ==> #[trigger] final(self).hooks_of(slot, other) == old(
                    self,
                ).hooks_of(slot, other),
            forall|slot: TypeId| #[trigger]
                final(self).slot_entries(slot) == old(self).slot_entries(slot).filter(
                    owned_by_none(Set::empty().insert(plugin)),
                ),
    {
        let mut i: usize = 0;
        while i < self.buckets.len()
            invariant
                0 <= i <= self.buckets@.len(),
                old(self).wf() ==> self.wf(),
                forall|j: int| 0 <= j < i ==> (#[trigger] self.buckets@[j]).plugin != plugin,
                forall|slot: TypeId, other: u64|
                    other != plugin ==> #[trigger] self.keeps(slot, other) == old(self).keeps(
                        slot,
                        other,
                    ),
                forall|slot: TypeId, other: u64|
                    other != plugin ==> #[trigger] self.hooks_of(slot, other) == old(
                        self,
                    ).hooks_of(slot, other),
                forall|slot: TypeId| #[trigger]
                    self.slot_entries(slot).filter(owned_by_none(Set::empty().insert(plugin)))
                        == old(self).slot_entries(slot).filter(
                        owned_by_none(Set::empty().insert(plugin)),
                    ),
            decreases self.buckets@.len() - i,
        {
            if self.buckets[i].plugin == plugin {
                let ghost prev = *self;
                let ghost before = self.buckets@;
                let ghost was_wf = self.wf();
                self.buckets.remove(i);
                proof {
                    let after = self.buckets@;
                    assert(after == before.remove(i as int));
                    assert forall|j: int| 0 <= j < after.len() implies after[j] == before[if j
                        < i {
                        j
                    } else {
                        j + 1
                    }] by {}
                    assert forall|slot: TypeId, other: u64| other != plugin implies #[trigger]
                        self.hooks_of(slot, other) == old(self).hooks_of(slot, other) by {
                        lemma_remove_other_bucket(before, i as int, slot, other);
                        assert(prev.hooks_of(slot, other) == old(self).hooks_of(slot, other));
                    }
                    assert forall|slot: TypeId| #[trigger]
                        self.slot_entries(slot).filter(
                            owned_by_none(Set::empty().insert(plugin)),
                        ) == old(self).slot_entries(slot).filter(
                            owned_by_none(Set::empty().insert(plugin)),
                        ) by {
                        lemma_entries_without_owned(
                            before,
                            i as int,
                            slot,
                            Set::empty().insert(plugin),
                        );
                        assert(prev.slot_entries(slot).filter(
                            owned_by_none(Set::empty().insert(plugin)),
                        ) == old(self).slot_entries(slot).filter(
                            owned_by_none(Set::empty().insert(plugin)),
                        ));
                    }
                    assert forall|slot: TypeId, other: u64| other != plugin implies #[trigger]
                        self.keeps(slot, other) == old(self).keeps(slot, other) by {
                        lemma_kept_after_remove(before, i as int, slot, other);
                        assert(prev.keeps(slot, other) == old(self).keeps(slot, other));
                    }
                    if was_wf {
                        assert(self.wf());
                    }
                }
            } else {
                i += 1;
            }
        }
        proof {
            assert forall|slot: TypeId| #[trigger]
                self.hooks_of(slot, plugin) == Seq::<Hook<H>>::empty() by {
                lemma_no_bucket(self.buckets@, slot, plugin);
            }
            assert forall|slot: TypeId| !#[trigger] self.keeps(slot, plugin) by {
                if self.keeps(slot, plugin) {
                    let i = choose|i: int|
                        0 <= i < self.buckets@.len() && (#[trigger] self.buckets@[i]).slot == slot
                            && self.buckets@[i].plugin == plugin;
                    assert(self.buckets@[i].plugin != plugin);
                }
            }
            assert forall|slot: TypeId, k: int|
                0 <= k < self.slot_entries(slot).len() implies (#[trigger] self.slot_entries(
                slot,
            )[k]).0 != plugin by {
                lemma_entries_without_plugin(self.buckets@, slot, plugin);
            }
            assert forall|slot: TypeId| #[trigger]
                self.slot_entries(slot) == old(self).slot_entries(slot).filter(
                    owned_by_none(Set::empty().insert(plugin)),
                ) by {
                lemma_entries_none_owned(self.buckets@, slot, Set::empty().insert(plugin));
            }
        }
    }
}

impl<H> Default for HookRegistry<H> {
    /// An empty registry.
    fn default() -> (registry: Self)
        ensures
            registry.wf(),
            forall|slot: TypeId, plugin: u64|
                #[trigger] registry.hooks_of(slot, plugin) == Seq::<Hook<H>>::empty(),
            forall|slot: TypeId| #[trigger] registry.slot_entries(slot).len() == 0,
            forall|slot: TypeId, plugin: u64| !#[trigger] registry.keeps(slot, plugin),
    {
        Self::new()
    }
}

/// Taking out a bucket of another key leaves a key's hooks as they were.
pub proof fn lemma_remove_other_bucket<H>(
    buckets: Seq<Bucket<H>>,
    at: int,
    slot: TypeId,
    plugin: u64,
)
    requires
        0 <= at < buckets.len(),
        !(buckets[at].slot == slot && buckets[at].plugin == plugin),
    ensures
        bucket_hooks(buckets.remove(at), slot, plugin) == bucket_hooks(buckets, slot, plugin),
{
    let after = buckets.remove(at);
    assert forall|j: int| 0 <= j < after.len() implies after[j] == buckets[if j < at {
        j
    } else {
        j + 1
    }] by {}
    if exists|i: int| first_bucket(buckets, slot, plugin, i) {
        let i = choose|i: int| first_bucket(buckets, slot, plugin, i);
        let i2 = if i < at {
            i
        } else {
            i - 1
        };
        assert(first_bucket(after, slot, plugin, i2)) by {
            assert forall|j: int| 0 <= j < i2 implies !((#[trigger] after[j]).slot == slot
                && after[j].plugin == plugin) by {
                let jj = if j < at {
                    j
                } else {
                    j + 1
                };
                assert(!(buckets[jj].slot == slot && buckets[jj].plugin == plugin));
            }
        }
        lemma_first_bucket_unique(after, slot, plugin, i2);
        lemma_first_bucket_unique(buckets, slot, plugin, i);
    } else {
        if exists|i: int| first_bucket(after, slot, plugin, i) {
            let i = choose|i: int| first_bucket(after, slot, plugin, i);
            let ii = if i < at {
                i
            } else {
                i + 1
            };
            assert(first_bucket(buckets, slot, plugin, ii)) by {
                assert forall|j: int| 0 <= j < ii implies !((#[trigger] buckets[j]).slot == slot
                    && buckets[j].plugin == plugin) by {
                    if j < at {
                        assert(after[j] == buckets[j]);
                    } else if j > at {
                        assert(after[j - 1] == buckets[j]);
                    }
                }
            }
        }
    }
}

/// Taking out a bucket without hooks leaves every key's hooks as they were.
pub proof fn lemma_remove_empty_bucket<H>(
    buckets: Seq<Bucket<H>>,
    at: int,
    slot: TypeId,
    plugin: u64,
)
    requires
        0 <= at < buckets.len(),
        buckets[at].hooks@.len() == 0,
        distinct_keys(buckets),
    ensures
        bucket_hooks(buckets.remove(at), slot, plugin) =~= bucket_hooks(buckets, slot, plugin),
{
    if buckets[at].slot == slot && buckets[at].plugin == plugin {
        let after = buckets.remove(at);
        assert forall|j: int| 0 <= j < after.len() implies after[j] == buckets[if j < at {
            j
        } else {
            j + 1
        }] by {}
        assert(first_bucket(buckets, slot, plugin, at));
        lemma_first_bucket_unique(buckets, slot, plugin, at);
        assert forall|j: int| 0 <= j < after.len() implies !((#[trigger] after[j]).slot == slot
            && after[j].plugin == plugin) by {
            if j < at {
                assert(!(buckets[j].slot == buckets[at].slot && buckets[j].plugin
                    == buckets[at].plugin));
            } else {
                assert(!(buckets[at].slot == buckets[j + 1].slot && buckets[at].plugin
                    == buckets[j + 1].plugin));
            }
        }
        lemma_no_bucket(after, slot, plugin);
    } else {
        lemma_remove_other_bucket(buckets, at, slot, plugin);
    }
}

/// The position of the first hook named `name`.
pub fn hook_index<H>(hooks: &Vec<Hook<H>>, name: Option<u64>) -> (found: Option<usize>)
    ensures
        found is Some ==> first_named(hooks@, name, found->0 as int),
        found is Some ==> position_of(hooks@, name) == found->0,
        found is None ==> position_of(hooks@, name) == -1,
        found is None ==> forall|j: int| 0 <= j < hooks@.len() ==> (#[trigger] hooks@[j]).name != name,
{
    let mut k: usize = 0;
    while k < hooks.len()
        invariant
            0 <= k <= hooks@.len(),
            forall|j: int| 0 <= j < k ==> (#[trigger] hooks@[j]).name != name,
        decreases hooks@.len() - k,
    {
        if hooks[k].name == name {
            proof {
                lemma_first_named_unique(hooks@, name, k as int);
            }
            return Some(k);
        }
        k += 1;
    }
    proof {
        lemma_position_none(hooks@, name);
    }
    None
}

} // verus!
