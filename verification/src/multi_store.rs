//! A registry of stores, and the fan-out of one request over several of
//! them.
use crate::assoc::{
    as_map, distinct_keys, key_at, keys, lemma_entry, lemma_index_of, lemma_insert, lemma_len,
    lemma_push, lemma_update, position,
};
use crate::drivers::{made, Driver};
use crate::names::{
    ascending, compare_names, lemma_name_lt_asymmetric, lemma_name_lt_transitive, name_lt,
    NameOrder,
};
use crate::errors::{DriverError, MirrorError};
use crate::store::{answered, done, lacking, Operation, Request, Store};
use vstd::prelude::*;
use vstd::string::StringExecFns;

verus! {

/// What a fan-out does when one of its targets fails.
#[derive(Clone, Copy, Debug, PartialEq, Eq, Structural)]
pub enum Policy {
    /// Go on with the remaining targets, and report every failure.
    ContinueOnFailure,
    /// Stop at the first failure, and report it alone.
    StopOnFailure,
}

/// The names that a list of names holds, in its order.
pub open spec fn names_of(list: Seq<String>) -> Seq<Seq<char>> {
    Seq::new(list.len(), |i: int| list[i]@)
}

/// The names that a slice of names holds, in its order.
pub open spec fn wanted_names(list: Seq<&str>) -> Seq<Seq<char>> {
    Seq::new(list.len(), |i: int| list[i]@)
}

/// The registry after the stores of `added` were registered one after the
/// other, each under its name, a later one in place of an earlier one of
/// the same name.
pub open spec fn with_stores<D: Driver>(
    registry: Map<Seq<char>, Store<D>>,
    added: Seq<(&str, Store<D>)>,
) -> Map<Seq<char>, Store<D>>
    decreases added.len(),
{
    if added.len() == 0 {
        registry
    } else {
        with_stores(registry.insert(added[0].0@, added[0].1), added.drop_first())
    }
}

/// Those of the names `wanted` that are not in `known`, in the order of
/// `wanted`.
pub open spec fn unknown_among(known: Set<Seq<char>>, wanted: Seq<Seq<char>>) -> Seq<Seq<char>>
    decreases wanted.len(),
{
    if wanted.len() == 0 {
        Seq::empty()
    } else if known.contains(wanted.last()) {
        unknown_among(known, wanted.drop_last())
    } else {
        unknown_among(known, wanted.drop_last()).push(wanted.last())
    }
}

/// The names written one after the other, with a comma between two of them.
pub open spec fn comma_separated(names: Seq<Seq<char>>) -> Seq<char>
    decreases names.len(),
{
    if names.len() == 0 {
        Seq::empty()
    } else if names.len() == 1 {
        names[0]
    } else {
        comma_separated(names.drop_last()) + ","@ + names.last()
    }
}

/// What `add_mirrors` answers when the names `unknown` are not registered.
pub open spec fn unknown_stores_message(unknown: Seq<Seq<char>>) -> Seq<char> {
    "the stores: "@ + comma_separated(unknown) + " not defined"@
}

/// Names in ascending order are distinct.
pub proof fn lemma_ascending_distinct<V>(entries: Seq<(String, V)>)
    requires
        ascending(keys(entries)),
    ensures
        distinct_keys(entries),
{
    assert forall|i: int, j: int|
        0 <= i < entries.len() && 0 <= j < entries.len() && i != j implies (#[trigger] entries[i]).0@
        != (#[trigger] entries[j]).0@ by {
        if i < j {
            assert(name_lt(keys(entries)[i], keys(entries)[j]));
            lemma_name_lt_asymmetric(entries[i].0@, entries[j].0@);
        } else {
            assert(name_lt(keys(entries)[j], keys(entries)[i]));
            lemma_name_lt_asymmetric(entries[j].0@, entries[i].0@);
        }
    }
}

/// Puts `value` under `name` among entries that stand in ascending order of
/// their names: in place of the value that the name had, or else where the
/// name belongs. A name that comes after all the others is put last.
fn put<V>(entries: &mut Vec<(String, V)>, name: &str, value: V)
    requires
        ascending(keys(old(entries)@)),
    ensures
        ascending(keys(final(entries)@)),
        as_map(final(entries)@) == as_map(old(entries)@).insert(name@, value),
        (forall|i: int|
            0 <= i < old(entries)@.len() ==> name_lt((#[trigger] old(entries)@[i]).0@, name@))
            ==> final(entries)@.len() == old(entries)@.len() + 1 && final(entries)@.drop_last()
            == old(entries)@ && final(entries)@.last().0@ == name@ && final(entries)@.last().1
            == value,
{
    proof {
        lemma_ascending_distinct(entries@);
    }
    let mut at: usize = 0;
    let mut same = false;
    while at < entries.len()
        invariant_except_break
            !same,
        invariant
            at <= entries.len(),
            forall|j: int| 0 <= j < at ==> name_lt((#[trigger] entries@[j]).0@, name@),
        ensures
            at <= entries.len(),
            forall|j: int| 0 <= j < at ==> name_lt((#[trigger] entries@[j]).0@, name@),
            same ==> at < entries.len() && entries@[at as int].0@ == name@,
            !same ==> at == entries.len() || name_lt(name@, entries@[at as int].0@),
        decreases entries.len() - at,
    {
        match compare_names(entries[at].0.as_str(), name) {
            NameOrder::Before => {
                at = at + 1;
            },
            NameOrder::Same => {
                same = true;
                break ;
            },
            NameOrder::After => {
                break ;
            },
        }
    }
    let entry = (name.to_string(), value);
    let ghost before = entries@;
    proof {
        if forall|i: int| 0 <= i < before.len() ==> name_lt((#[trigger] before[i]).0@, name@) {
            if at < before.len() {
                assert(name_lt(before[at as int].0@, name@));
                lemma_name_lt_asymmetric(before[at as int].0@, name@);
            }
            assert(before.insert(before.len() as int, entry) =~= before.push(entry));
            assert(before.push(entry).drop_last() =~= before);
        }
    }
    if same {
        proof {
            lemma_update(before, at as int, entry);
        }
        entries.set(at, entry);
    } else {
        proof {
            assert forall|i: int| 0 <= i < before.len() implies (#[trigger] before[i]).0@
                != entry.0@ by {
                if i < at {
                    lemma_name_lt_asymmetric(before[i].0@, name@);
                } else {
                    assert(name_lt(keys(before)[at as int], keys(before)[i]) || i == at);
                    if i > at {
                        lemma_name_lt_transitive(name@, before[at as int].0@, before[i].0@);
                    }
                    lemma_name_lt_asymmetric(name@, before[i].0@);
                }
            }
            lemma_insert(before, at as int, entry);
            let after = before.insert(at as int, entry);
            assert forall|i: int, j: int| 0 <= i < j < after.len() implies name_lt(
                #[trigger] keys(after)[i],
                #[trigger] keys(after)[j],
            ) by {
                let i0 = if i < at { i } else { i - 1 };
                let j0 = if j < at { j } else { j - 1 };
                if i == at {
                    assert(name_lt(keys(before)[at as int], keys(before)[j0]) || j0 == at);
                    if j0 > at {
                        lemma_name_lt_transitive(name@, before[at as int].0@, before[j0].0@);
                    }
                } else if j == at {
                    assert(name_lt(before[i0].0@, name@));
                } else {
                    assert(name_lt(keys(before)[i0], keys(before)[j0]));
                }
            }
        }
        entries.insert(at, entry);
    }
}

/// A primary store, named secondary stores, named groups of them, and the
/// policy under which a fan-out over them runs.
#[derive(Clone)]
pub struct MultiStore<D: Driver> {
    pub primary: Store<D>,
    mirrors: Vec<(String, Vec<String>)>,
    mirrors_policy: Policy,
    stores: Vec<(String, Store<D>)>,
}

impl<D: Driver> MultiStore<D> {
    /// The secondary stores stand in ascending order of their names, and no
    /// two groups share a name.
    pub closed spec fn wf(&self) -> bool {
        &&& ascending(keys(self.stores@))
        &&& distinct_keys(self.mirrors@)
    }

    /// The primary store.
    pub closed spec fn primary_store(&self) -> Store<D> {
        self.primary
    }

    /// The secondary stores, each under its name.
    pub closed spec fn registry(&self) -> Map<Seq<char>, Store<D>> {
        as_map(self.stores@)
    }

    /// The names of the secondary stores, in ascending order.
    pub closed spec fn names(&self) -> Seq<Seq<char>> {
        keys(self.stores@)
    }

    /// The groups: the names of its members under the name of each.
    pub closed spec fn mirrors(&self) -> Map<Seq<char>, Seq<Seq<char>>> {
        as_map(self.mirrors@).map_values(|members: Vec<String>| names_of(members@))
    }

    /// The active policy.
    pub closed spec fn policy(&self) -> Policy {
        self.mirrors_policy
    }

    /// What `names` lists is what `registry` holds, in ascending order.
    pub proof fn lemma_names(&self)
        requires
            self.wf(),
        ensures
            ascending(self.names()),
            self.names().to_set() == self.registry().dom(),
    {
        lemma_ascending_distinct(self.stores@);
        assert forall|name: Seq<char>| self.names().to_set().contains(name)
            <==> self.registry().dom().contains(name) by {
            if self.names().to_set().contains(name) {
                let i = choose|i: int| 0 <= i < self.names().len() && self.names()[i] == name;
                assert(key_at(self.stores@, name, i));
            }
            if self.registry().dom().contains(name) {
                let i = lemma_index_of(self.stores@, name);
                assert(self.names()[i] == name);
            }
        }
        assert(self.names().to_set() =~= self.registry().dom());
    }

    /// A registry with the given primary store, no secondary store, no
    /// group, and the policy `ContinueOnFailure`.
    pub fn new(store: Store<D>) -> (multi: Self)
        ensures
            multi.wf(),
            multi.primary_store() == store,
            multi.registry() == Map::<Seq<char>, Store<D>>::empty(),
            multi.mirrors() == Map::<Seq<char>, Seq<Seq<char>>>::empty(),
            multi.policy() == Policy::ContinueOnFailure,
    {
        let multi = MultiStore {
            primary: store,
            mirrors: Vec::new(),
            mirrors_policy: Policy::ContinueOnFailure,
            stores: Vec::new(),
        };
        assert(multi.registry() =~= Map::<Seq<char>, Store<D>>::empty());
        assert(multi.mirrors() =~= Map::<Seq<char>, Seq<Seq<char>>>::empty());
        multi
    }

    /// Registers one store under `name`, in place of the one that had the
    /// name, if any.
    fn insert_store(&mut self, name: &str, store: Store<D>)
        requires
            old(self).wf(),
        ensures
            final(self).wf(),
            final(self).registry() == old(self).registry().insert(name@, store),
            final(self).primary_store() == old(self).primary_store(),
            final(self).mirrors() == old(self).mirrors(),
            final(self).policy() == old(self).policy(),
    {
        put(&mut self.stores, name, store);
    }

    /// Registers the stores, each under its name. A store registered under
    /// a name that is taken replaces the store that had it. A store may be
    /// registered under the name `primary`: it is found under that name and
    /// may be a member of a group, but in a fan-out from the primary store
    /// the name stands for the primary store and that store takes no part.
    pub fn add_stores(&mut self, stores: Vec<(&str, Store<D>)>)
        requires
            old(self).wf(),
        ensures
            final(self).wf(),
            final(self).registry() == with_stores(old(self).registry(), stores@),
            final(self).primary_store() == old(self).primary_store(),
            final(self).mirrors() == old(self).mirrors(),
            final(self).policy() == old(self).policy(),
    {
        let mut rest = stores;
        while rest.len() > 0
            invariant
                self.wf(),
                with_stores(self.registry(), rest@) == with_stores(old(self).registry(), stores@),
                self.primary_store() == old(self).primary_store(),
                self.mirrors() == old(self).mirrors(),
                self.policy() == old(self).policy(),
            decreases rest.len(),
        {
            let ghost all = rest@;
            let (name, store) = rest.remove(0);
            proof {
                assert(rest@ =~= all.drop_first());
            }
            self.insert_store(name, store);
        }
    }

    /// Replaces the active policy. Every fan-out started afterwards runs
    /// under it.
    pub fn set_mirrors_policy(&mut self, policy: Policy)
        ensures
            final(self).policy() == policy,
            final(self).wf() == old(self).wf(),
            final(self).primary_store() == old(self).primary_store(),
            final(self).registry() == old(self).registry(),
            final(self).names() == old(self).names(),
            final(self).mirrors() == old(self).mirrors(),
    {
        self.mirrors_policy = policy;
    }

    /// The secondary store registered under `name`.
    pub fn get_store(&self, name: &str) -> (found: Option<&Store<D>>)
        requires
            self.wf(),
        ensures
            match found {
                Some(store) => self.registry().contains_key(name@) && *store
                    == self.registry()[name@],
                None => !self.registry().contains_key(name@),
            },
    {
        proof {
            lemma_ascending_distinct(self.stores@);
        }
        match position(&self.stores, name) {
            Some(i) => {
                proof {
                    lemma_entry(self.stores@, i as int);
                }
                Some(&self.stores[i].1)
            },
            None => None,
        }
    }

    /// The primary store.
    pub fn primary(&self) -> (store: &Store<D>)
        ensures
            *store == self.primary_store(),
    {
        &self.primary
    }

    /// The names of the secondary stores, in ascending order.
    pub fn store_names(&self) -> (names: Vec<String>)
        ensures
            names_of(names@) == self.names(),
    {
        let mut names: Vec<String> = Vec::new();
        let mut i: usize = 0;
        while i < self.stores.len()
            invariant
                i <= self.stores.len(),
                names@.len() == i,
                forall|j: int| 0 <= j < i ==> (#[trigger] names@[j])@ == self.stores@[j].0@,
            decreases self.stores.len() - i,
        {
            names.push(self.stores[i].0.clone());
            i = i + 1;
        }
        proof {
            assert(names_of(names@) =~= self.names());
        }
        names
    }

    /// The active policy.
    pub fn mirrors_policy(&self) -> (policy: Policy)
        ensures
            policy == self.policy(),
    {
        self.mirrors_policy
    }

    /// The names of the members of the group `name`, as they were given.
    pub fn get_mirror(&self, name: &str) -> (found: Option<&Vec<String>>)
        requires
            self.wf(),
        ensures
            match found {
                Some(members) => self.mirrors().contains_key(name@) && names_of(members@)
                    == self.mirrors()[name@],
                None => !self.mirrors().contains_key(name@),
            },
    {
        match position(&self.mirrors, name) {
            Some(i) => {
                proof {
                    lemma_entry(self.mirrors@, i as int);
                }
                Some(&self.mirrors[i].1)
            },
            None => None,
        }
    }

    /// How many groups are defined.
    pub fn mirrors_len(&self) -> (count: usize)
        requires
            self.wf(),
        ensures
            count == self.mirrors().len(),
    {
        proof {
            lemma_len(self.mirrors@);
            assert(self.mirrors().dom() =~= as_map(self.mirrors@).dom());
        }
        self.mirrors.len()
    }

    /// Defines the group `name` as the stores of the given names, in place
    /// of an earlier group of that name. Every name must be registered: if
    /// some are not, nothing changes and the answer lists all of them.
    pub fn add_mirrors(&mut self, name: &str, stores_names: &[&str]) -> (res: Result<(), String>)
        requires
            old(self).wf(),
        ensures
            final(self).wf(),
            final(self).primary_store() == old(self).primary_store(),
            final(self).registry() == old(self).registry(),
            final(self).names() == old(self).names(),
            final(self).policy() == old(self).policy(),
            match res {
                Ok(_) => {
                    &&& unknown_among(old(self).registry().dom(), wanted_names(stores_names@)).len()
                        == 0
                    &&& final(self).mirrors() == old(self).mirrors().insert(
                        name@,
                        wanted_names(stores_names@),
                    )
                },
                Err(message) => {
                    let unknown = unknown_among(
                        old(self).registry().dom(),
                        wanted_names(stores_names@),
                    );
                    &&& unknown.len() > 0
                    &&& message@ == unknown_stores_message(unknown)
                    &&& final(self).mirrors() == old(self).mirrors()
                },
            },
    {
        proof {
            lemma_ascending_distinct(self.stores@);
        }
        let ghost wanted = wanted_names(stores_names@);
        let ghost known = self.registry().dom();
        let mut members: Vec<String> = Vec::new();
        let mut listed = String::new();
        let mut missing: usize = 0;
        let mut i: usize = 0;
        while i < stores_names.len()
            invariant
                i <= stores_names.len(),
                wanted == wanted_names(stores_names@),
                known == as_map(self.stores@).dom(),
                distinct_keys(self.stores@),
                names_of(members@) == wanted.take(i as int),
                missing <= i,
                missing == unknown_among(known, wanted.take(i as int)).len(),
                listed@ == comma_separated(unknown_among(known, wanted.take(i as int))),
            decreases stores_names.len() - i,
        {
            let wanted_name = stores_names[i];
            proof {
                assert(wanted.take(i + 1).drop_last() =~= wanted.take(i as int));
                assert(wanted.take(i + 1).last() == wanted_name@);
            }
            match position(&self.stores, wanted_name) {
                None => {
                    let ghost so_far = unknown_among(known, wanted.take(i as int));
                    proof {
                        assert(so_far.push(wanted_name@).drop_last() =~= so_far);
                    }
                    if missing > 0 {
                        listed.append(",");
                    }
                    listed.append(wanted_name);
                    missing = missing + 1;
                },
                Some(at) => {
                    proof {
                        lemma_entry(self.stores@, at as int);
                    }
                },
            }
            members.push(wanted_name.to_string());
            proof {
                assert(names_of(members@) =~= wanted.take(i + 1));
            }
            i = i + 1;
        }
        proof {
            assert(wanted.take(i as int) =~= wanted);
        }
        if missing > 0 {
            let mut message = "the stores: ".to_string();
            message.append(listed.as_str());
            message.append(" not defined");
            return Err(message);
        }
        let entry = (name.to_string(), members);
        let ghost before = self.mirrors@;
        match position(&self.mirrors, name) {
            Some(at) => {
                proof {
                    lemma_update(before, at as int, entry);
                }
                self.mirrors.set(at, entry);
            },
            None => {
                proof {
                    assert forall|j: int| 0 <= j < before.len() implies (#[trigger] before[j]).0@
                        != entry.0@ by {
                        if before[j].0@ == entry.0@ {
                            lemma_entry(before, j);
                        }
                    }
                    lemma_push(before, entry);
                }
                self.mirrors.push(entry);
            },
        }
        proof {
            assert(self.mirrors() =~= old(self).mirrors().insert(name@, wanted));
        }
        Ok(())
    }
}

/// The name under which the primary store takes part in a fan-out.
pub open spec fn primary_name() -> Seq<char> {
    "primary"@
}

/// One target of a fan-out: the primary store, or the secondary store at an
/// index of the registry.
#[derive(Clone, Copy)]
enum Target {
    Primary,
    Secondary(usize),
}

/// The targets of a fan-out, in the order in which they are visited.
pub struct Targets {
    list: Vec<Target>,
}

/// A fan-out over some of the stores of a `MultiStore`, in ascending order
/// of their names. It lives for one request, and changes nothing of the
/// `MultiStore` but what its targets hold.
pub struct Mirror<'a, D: Driver> {
    pub multi: &'a mut MultiStore<D>,
    pub targets: Targets,
}

spec fn target_name<D: Driver>(multi: MultiStore<D>, target: Target) -> Seq<char> {
    match target {
        Target::Primary => primary_name(),
        Target::Secondary(i) => multi.stores@[i as int].0@,
    }
}

spec fn target_store<D: Driver>(multi: MultiStore<D>, target: Target) -> Store<D> {
    match target {
        Target::Primary => multi.primary,
        Target::Secondary(i) => multi.stores@[i as int].1,
    }
}

spec fn valid_target<D: Driver>(multi: MultiStore<D>, target: Target) -> bool {
    match target {
        Target::Primary => true,
        Target::Secondary(i) => i < multi.stores@.len(),
    }
}

/// A failed target is accounted for: if its store is reliable, the store
/// held nothing for the request to work on, the error says so, and the
/// store holds what it held.
pub open spec fn failed<D: Driver>(
    op: Operation,
    path: Seq<char>,
    before: Store<D>,
    after: Store<D>,
    error: DriverError,
) -> bool {
    before.reliable() ==> lacking(op, path, before) && error == DriverError::ResourceNotFound
        && after.files() == before.files()
}

/// The fan-out stopped at target `k`, under `name`: the targets before it
/// took the request, the targets after it are as they were.
pub open spec fn stopped_at<D: Driver>(
    op: Operation,
    path: Seq<char>,
    names: Seq<Seq<char>>,
    before: Seq<Store<D>>,
    after: Seq<Store<D>>,
    k: int,
    name: Seq<char>,
    error: DriverError,
) -> bool {
    &&& 0 <= k < names.len()
    &&& names[k] == name
    &&& failed(op, path, before[k], after[k], error)
    &&& forall|j: int| 0 <= j < k ==> done(op, path, #[trigger] before[j], after[j])
    &&& forall|j: int| k < j < names.len() ==> #[trigger] after[j] == before[j]
}

/// What a fan-out of the request over the targets `names` answers, and
/// what it leaves in their stores.
///
/// It succeeds when every target took the request. Under `StopOnFailure`
/// it fails at the first target that failed, and leaves the later ones
/// alone. Under `ContinueOnFailure` it tries every target, and fails with
/// the error of each target that failed, under its name.
pub open spec fn fanned_out<D: Driver>(
    policy: Policy,
    op: Operation,
    path: Seq<char>,
    names: Seq<Seq<char>>,
    before: Seq<Store<D>>,
    after: Seq<Store<D>>,
    res: Result<(), MirrorError>,
) -> bool {
    match res {
        Ok(_) => forall|k: int|
            0 <= k < names.len() ==> done(op, path, #[trigger] before[k], after[k]),
        Err(MirrorError::MirrorFailedOnStore(name, error)) => {
            &&& policy == Policy::StopOnFailure
            &&& exists|k: int| stopped_at(op, path, names, before, after, k, name@, error)
        },
        Err(MirrorError::MirrorFailedOnStores(errors)) => {
            &&& policy == Policy::ContinueOnFailure
            &&& errors@.len() > 0
            &&& ascending(keys(errors@))
            &&& as_map(errors@).dom().subset_of(names.to_set())
            &&& forall|k: int|
                0 <= k < names.len() ==> if as_map(errors@).contains_key(#[trigger] names[k]) {
                    failed(op, path, before[k], after[k], as_map(errors@)[names[k]])
                } else {
                    done(op, path, before[k], after[k])
                }
        },
    }
}

/// The failures that a list holds: each name with its error, in the order
/// of the list.
pub open spec fn listed_failures(errors: Seq<(String, DriverError)>) -> Seq<
    (Seq<char>, DriverError),
> {
    Seq::new(errors.len(), |i: int| (errors[i].0@, errors[i].1))
}

/// The name comes after every name under which a failure is recorded.
pub open spec fn comes_last(errors: Seq<(String, DriverError)>, name: Seq<char>) -> bool {
    forall|i: int| 0 <= i < errors.len() ==> name_lt((#[trigger] errors[i]).0@, name)
}

/// The failures among the answers of the targets: the name of each target
/// whose store answered an error, with that error, in the order of the
/// targets. `answers[k]` is what the store of the target `names[k]`
/// answered.
pub open spec fn failures(names: Seq<Seq<char>>, answers: Seq<Result<(), DriverError>>) -> Seq<
    (Seq<char>, DriverError),
>
    decreases answers.len(),
{
    if answers.len() == 0 {
        Seq::empty()
    } else {
        match answers.last() {
            Ok(_) => failures(names, answers.drop_last()),
            Err(error) => failures(names, answers.drop_last()).push(
                (names[answers.len() - 1], error),
            ),
        }
    }
}

/// What a fan-out over the targets `names` answers to what their stores
/// answered. `answers` holds the answer of each target that was handed the
/// request, in the order of the targets.
///
/// The fan-out succeeds when every target was handed the request and none
/// answered an error. Under `ContinueOnFailure` every target is handed the
/// request, and the fan-out fails with the failures among the answers, all
/// of them. Under `StopOnFailure` the first target that answered an error
/// is the last that was handed the request, and the fan-out fails with
/// its name and its error.
pub open spec fn verdict(
    policy: Policy,
    names: Seq<Seq<char>>,
    answers: Seq<Result<(), DriverError>>,
    res: Result<(), MirrorError>,
) -> bool {
    match res {
        Ok(_) => answers.len() == names.len() && forall|k: int|
            0 <= k < answers.len() ==> (#[trigger] answers[k]) is Ok,
        Err(MirrorError::MirrorFailedOnStores(errors)) => {
            &&& policy == Policy::ContinueOnFailure
            &&& answers.len() == names.len()
            &&& errors@.len() > 0
            &&& listed_failures(errors@) == failures(names, answers)
        },
        Err(MirrorError::MirrorFailedOnStore(name, error)) => {
            &&& policy == Policy::StopOnFailure
            &&& 0 < answers.len() <= names.len()
            &&& forall|k: int| 0 <= k < answers.len() - 1 ==> (#[trigger] answers[k]) is Ok
            &&& answers.last() == Err::<(), DriverError>(error)
            &&& name@ == names[answers.len() - 1]
        },
    }
}

/// The stores from the place `from` on are what they were.
pub open spec fn spared<D: Driver>(before: Seq<Store<D>>, after: Seq<Store<D>>, from: int) -> bool {
    forall|k: int| from <= k < before.len() ==> #[trigger] after[k] == before[k]
}

/// Nothing of the registry changed but what the targets hold: the
/// secondary stores named in `touched`, and the primary store where it
/// takes part (`with_primary`). The name `primary` then stands for the
/// primary store, and a secondary store of that name is left alone.
pub open spec fn kept_apart<D: Driver>(
    before: MultiStore<D>,
    after: MultiStore<D>,
    touched: Seq<Seq<char>>,
    with_primary: bool,
) -> bool {
    &&& after.names() == before.names()
    &&& after.registry().dom() == before.registry().dom()
    &&& after.mirrors() == before.mirrors()
    &&& after.policy() == before.policy()
    &&& forall|name: Seq<char>|
        before.registry().contains_key(name) && (!touched.contains(name) || (with_primary
            && name == primary_name())) ==> #[trigger] after.registry()[name]
            == before.registry()[name]
    &&& !with_primary ==> after.primary_store() == before.primary_store()
}

/// What one request does to a fan-out: see `fanned_out` and `kept_apart`.
pub open spec fn outcome<'a, D: Driver>(
    before: Mirror<'a, D>,
    after: Mirror<'a, D>,
    op: Operation,
    path: Seq<char>,
    res: Result<(), MirrorError>,
) -> bool {
    &&& after.policy() == before.policy()
    &&& after.with_primary() == before.with_primary()
    &&& after.target_names() == before.target_names()
    &&& after.target_stores().len() == before.target_stores().len()
    &&& forall|k: int|
        0 <= k < before.target_stores().len() ==> (#[trigger] after.target_stores()[k]).reliable()
            == before.target_stores()[k].reliable()
    &&& kept_apart(before.base(), after.base(), before.target_names(), before.with_primary())
    &&& fanned_out(
        before.policy(),
        op,
        path,
        before.target_names(),
        before.target_stores(),
        after.target_stores(),
        res,
    )
}

/// A fan-out that stopped at a target failed on that target's store.
proof fn lemma_stopped<D: Driver>(
    op: Operation,
    path: Seq<char>,
    names: Seq<Seq<char>>,
    before: Seq<Store<D>>,
    after: Seq<Store<D>>,
    k: int,
    name: String,
    error: DriverError,
)
    requires
        stopped_at(op, path, names, before, after, k, name@, error),
    ensures
        fanned_out(
            Policy::StopOnFailure,
            op,
            path,
            names,
            before,
            after,
            Err(MirrorError::MirrorFailedOnStore(name, error)),
        ),
{
    let res: Result<(), MirrorError> = Err(MirrorError::MirrorFailedOnStore(name, error));
    assert(res->Err_0->MirrorFailedOnStore_0 == name);
    assert(res->Err_0->MirrorFailedOnStore_1 == error);
    assert(exists|k: int| stopped_at(op, path, names, before, after, k, name@, error));
    assert(fanned_out(Policy::StopOnFailure, op, path, names, before, after, res));
}

/// A fan-out that went through every target answers for each of them.
proof fn lemma_went_through<D: Driver>(
    op: Operation,
    path: Seq<char>,
    names: Seq<Seq<char>>,
    before: Seq<Store<D>>,
    after: Seq<Store<D>>,
    errors: Vec<(String, DriverError)>,
)
    requires
        ascending(keys(errors@)),
        as_map(errors@).dom().subset_of(names.to_set()),
        forall|k: int|
            0 <= k < names.len() ==> if as_map(errors@).contains_key(#[trigger] names[k]) {
                failed(op, path, before[k], after[k], as_map(errors@)[names[k]])
            } else {
                done(op, path, before[k], after[k])
            },
    ensures
        errors@.len() == 0 ==> fanned_out(
            Policy::ContinueOnFailure,
            op,
            path,
            names,
            before,
            after,
            Ok(()),
        ) && fanned_out(Policy::StopOnFailure, op, path, names, before, after, Ok(())),
        errors@.len() > 0 ==> fanned_out(
            Policy::ContinueOnFailure,
            op,
            path,
            names,
            before,
            after,
            Err(MirrorError::MirrorFailedOnStores(errors)),
        ),
{
    if errors@.len() == 0 {
        assert(as_map(errors@) =~= Map::<Seq<char>, DriverError>::empty());
        assert forall|k: int| 0 <= k < names.len() implies done(
            op,
            path,
            #[trigger] before[k],
            after[k],
        ) by {
            assert(!as_map(errors@).contains_key(names[k]));
        }
    }
}

/// Entries with the same keys stand for maps with the same keys.
proof fn lemma_same_keys<V>(a: Seq<(String, V)>, b: Seq<(String, V)>)
    requires
        keys(a) == keys(b),
    ensures
        as_map(a).dom() == as_map(b).dom(),
        a.len() == b.len(),
        forall|i: int| 0 <= i < a.len() ==> (#[trigger] a[i]).0@ == b[i].0@,
{
    assert(a.len() == keys(a).len());
    assert(b.len() == keys(b).len());
    assert forall|i: int| 0 <= i < a.len() implies (#[trigger] a[i]).0@ == b[i].0@ by {
        assert(keys(a)[i] == keys(b)[i]);
    }
    assert forall|key: Seq<char>| as_map(a).contains_key(key) <==> as_map(b).contains_key(key) by {
        if as_map(a).contains_key(key) {
            let i = choose|i: int| key_at(a, key, i);
            assert(key_at(b, key, i));
        }
        if as_map(b).contains_key(key) {
            let i = choose|i: int| key_at(b, key, i);
            assert(key_at(a, key, i));
        }
    }
    assert(as_map(a).dom() =~= as_map(b).dom());
}

impl<'a, D: Driver> Mirror<'a, D> {
    /// The `MultiStore` that the fan-out works on, as it is now.
    pub open spec fn base(&self) -> MultiStore<D> {
        *self.multi
    }

    /// The policy under which the fan-out runs.
    pub closed spec fn policy(&self) -> Policy {
        self.multi.mirrors_policy
    }

    /// The names of the targets, in the order in which they are visited.
    pub closed spec fn target_names(&self) -> Seq<Seq<char>> {
        Seq::new(self.targets.list@.len(), |k: int| target_name(*self.multi, self.targets.list@[k]))
    }

    /// The stores of the targets, in the order in which they are visited.
    pub closed spec fn target_stores(&self) -> Seq<Store<D>> {
        Seq::new(self.targets.list@.len(), |k: int| target_store(*self.multi, self.targets.list@[k]))
    }

    /// The primary store is one of the targets. It then stands under the
    /// name `primary`, and no secondary store of that name takes part.
    pub closed spec fn with_primary(&self) -> bool {
        self.targets.list@.contains(Target::Primary)
    }

    /// The targets are stores of the `MultiStore`, each once, in ascending
    /// order of their names.
    pub closed spec fn wf(&self) -> bool {
        &&& self.multi.wf()
        &&& forall|k: int|
            0 <= k < self.targets.list@.len() ==> valid_target(*self.multi, #[trigger] self.targets.list@[k])
        &&& ascending(self.target_names())
    }

    /// There is one store for each name, and the names ascend. Where the
    /// primary store takes part, the name `primary` is its name; every
    /// other name is that of a registered secondary store.
    pub proof fn lemma_targets(&self)
        requires
            self.wf(),
        ensures
            self.base().wf(),
            self.policy() == self.base().policy(),
            ascending(self.target_names()),
            self.target_stores().len() == self.target_names().len(),
            self.with_primary() ==> self.target_names().contains(primary_name()),
            forall|k: int|
                0 <= k < self.target_names().len() ==> #[trigger] self.target_stores()[k] == (
                if self.with_primary() && self.target_names()[k] == primary_name() {
                    self.base().primary_store()
                } else {
                    self.base().registry()[self.target_names()[k]]
                }),
            forall|k: int|
                0 <= k < self.target_names().len() && !(self.with_primary()
                    && #[trigger] self.target_names()[k] == primary_name())
                    ==> self.base().registry().contains_key(self.target_names()[k]),
    {
        lemma_ascending_distinct(self.multi.stores@);
        let names = self.target_names();
        if self.with_primary() {
            let at = choose|at: int|
                0 <= at < self.targets.list@.len() && self.targets.list@[at] == Target::Primary;
            assert(names[at] == primary_name());
        }
        assert forall|k: int| 0 <= k < names.len() implies (#[trigger] self.target_stores()[k] == (
        if self.with_primary() && names[k] == primary_name() {
            self.base().primary_store()
        } else {
            self.base().registry()[names[k]]
        })) && (!(self.with_primary() && names[k] == primary_name())
            ==> self.base().registry().contains_key(names[k])) by {
            assert(valid_target(*self.multi, self.targets.list@[k]));
            match self.targets.list@[k] {
                Target::Primary => {},
                Target::Secondary(i) => {
                    lemma_entry(self.multi.stores@, i as int);
                    if self.with_primary() && names[k] == primary_name() {
                        let at = choose|at: int|
                            0 <= at < self.targets.list@.len() && self.targets.list@[at]
                                == Target::Primary;
                        if at < k {
                            assert(name_lt(names[at], names[k]));
                            lemma_name_lt_asymmetric(names[at], names[k]);
                        } else {
                            assert(name_lt(names[k], names[at]));
                            lemma_name_lt_asymmetric(names[k], names[at]);
                        }
                    }
                },
            }
        }        assert forall|k: int|
            0 <= k < names.len() && !(self.with_primary() && #[trigger] names[k]
                == primary_name()) implies self.base().registry().contains_key(names[k]) by {
            let store = self.target_stores()[k];
        }
    }

    /// The names of the targets, in the order in which they are visited.
    pub fn names(&self) -> (names: Vec<String>)
        requires
            self.wf(),
        ensures
            names_of(names@) == self.target_names(),
    {
        let mut names: Vec<String> = Vec::new();
        let mut k: usize = 0;
        while k < self.targets.list.len()
            invariant
                k <= self.targets.list.len(),
                self.wf(),
                names@.len() == k,
                forall|j: int|
                    0 <= j < k ==> (#[trigger] names@[j])@ == target_name(
                        *self.multi,
                        self.targets.list@[j],
                    ),
            decreases self.targets.list.len() - k,
        {
            proof {
                assert(valid_target(*self.multi, self.targets.list@[k as int]));
            }
            let name = match self.targets.list[k] {
                Target::Primary => "primary".to_string(),
                Target::Secondary(i) => self.multi.stores[i].0.clone(),
            };
            names.push(name);
            k = k + 1;
        }
        proof {
            assert(names_of(names@) =~= self.target_names());
        }
        names
    }

    /// What becomes of the failure of one target: under
    /// `ContinueOnFailure` it is recorded under the target's name, in place
    /// of a failure recorded under that name before, and the names stay in
    /// ascending order; under `StopOnFailure` it ends the fan-out.
    pub fn handle_error_policy(
        &self,
        store_name: &str,
        error: DriverError,
        error_stores: &mut Vec<(String, DriverError)>,
    ) -> (res: Result<(), MirrorError>)
        requires
            ascending(keys(old(error_stores)@)),
        ensures
            match self.policy() {
                Policy::ContinueOnFailure => {
                    &&& res is Ok
                    &&& ascending(keys(final(error_stores)@))
                    &&& as_map(final(error_stores)@) == as_map(old(error_stores)@).insert(
                        store_name@,
                        error,
                    )
                    &&& comes_last(old(error_stores)@, store_name@) ==> listed_failures(
                        final(error_stores)@,
                    ) == listed_failures(old(error_stores)@).push((store_name@, error))
                },
                Policy::StopOnFailure => {
                    &&& final(error_stores)@ == old(error_stores)@
                    &&& res matches Err(MirrorError::MirrorFailedOnStore(name, stopped))
                        && name@ == store_name@ && stopped == error
                },
            },
    {
        match self.multi.mirrors_policy {
            Policy::ContinueOnFailure => {
                let ghost recorded = error_stores@;
                put(error_stores, store_name, error);
                proof {
                    if comes_last(recorded, store_name@) {
                        assert(error_stores@ =~= recorded.push(error_stores@.last()));
                        assert(listed_failures(error_stores@) =~= listed_failures(recorded).push(
                            (store_name@, error),
                        ));
                    }
                }
                Ok(())
            },
            Policy::StopOnFailure => Err(
                MirrorError::MirrorFailedOnStore(store_name.to_string(), error),
            ),
        }
    }

    /// Hands the request to each target in turn.
    fn run(&mut self, request: &Request, path: &str) -> (res: Result<(), MirrorError>)
        requires
            old(self).wf(),
        ensures
            final(self).wf(),
            *final(final(self).multi) == *final(old(self).multi),
            outcome(*old(self), *final(self), request@, path@, res),
            exists|answers: Seq<Result<(), DriverError>>|
                {
                    &&& #[trigger] verdict(
                        old(self).policy(),
                        old(self).target_names(),
                        answers,
                        res,
                    )
                    &&& spared(
                        old(self).target_stores(),
                        final(self).target_stores(),
                        answers.len() as int,
                    )
                    &&& forall|k: int| #[trigger]
                        made(answers, k) ==> exists|driver: &mut D|
                            *driver == old(self).target_stores()[k].backend() && *final(driver)
                                == final(self).target_stores()[k].backend() && #[trigger] answered(
                                driver,
                                request@,
                                path,
                                answers[k],
                            )
                },
    {
        let ghost start = *self.multi;
        let ghost names = self.target_names();
        let ghost olds = self.target_stores();
        let ghost op = request@;
        let ghost mut answers: Seq<Result<(), DriverError>> = Seq::empty();
        let policy = self.multi.mirrors_policy;
        let mut errors: Vec<(String, DriverError)> = Vec::new();
        let mut k: usize = 0;
        proof {
            lemma_ascending_distinct(start.stores@);
            assert forall|a: int, b: int| 0 <= a < b < self.targets.list@.len() implies self.targets.list@[a]
                != self.targets.list@[b] by {
                assert(name_lt(names[a], names[b]));
                lemma_name_lt_asymmetric(names[a], names[b]);
            }
            assert(as_map(errors@) =~= Map::<Seq<char>, DriverError>::empty());
            assert(listed_failures(errors@) =~= failures(names, answers));
        }
        while k < self.targets.list.len()
            invariant
                k <= self.targets.list.len(),
                old(self).wf(),
                self.targets.list@ == old(self).targets.list@,
                *final(self.multi) == *final(old(self).multi),
                start == *old(self).multi,
                names == old(self).target_names(),
                olds == old(self).target_stores(),
                op == request@,
                names.len() == self.targets.list@.len(),
                olds.len() == self.targets.list@.len(),
                policy == start.mirrors_policy,
                self.multi.mirrors_policy == start.mirrors_policy,
                self.multi.mirrors@ == start.mirrors@,
                keys(self.multi.stores@) == keys(start.stores@),
                distinct_keys(start.stores@),
                forall|a: int, b: int|
                    0 <= a < b < self.targets.list@.len() ==> self.targets.list@[a] != self.targets.list@[b],
                forall|j: int|
                    k <= j < self.targets.list@.len() ==> target_store(
                        *self.multi,
                        #[trigger] self.targets.list@[j],
                    ) == olds[j],
                forall|j: int|
                    0 <= j < self.targets.list@.len() ==> target_store(
                        *self.multi,
                        #[trigger] self.targets.list@[j],
                    ).reliable() == olds[j].reliable(),
                forall|i: int|
                    0 <= i < start.stores@.len() && (forall|j: int|
                        0 <= j < self.targets.list@.len() ==> self.targets.list@[j] != Target::Secondary(
                            i as usize,
                        )) ==> (#[trigger] self.multi.stores@[i]).1 == start.stores@[i].1,
                (forall|j: int| 0 <= j < self.targets.list@.len() ==> self.targets.list@[j] != Target::Primary)
                    ==> self.multi.primary == start.primary,
                ascending(keys(errors@)),
                forall|e: int|
                    0 <= e < errors@.len() ==> exists|j: int|
                        0 <= j < k && names[j] == (#[trigger] errors@[e]).0@,
                policy == Policy::StopOnFailure ==> errors@.len() == 0,
                forall|j: int|
                    0 <= j < k ==> if as_map(errors@).contains_key(#[trigger] names[j]) {
                        failed(
                            op,
                            path@,
                            olds[j],
                            target_store(*self.multi, self.targets.list@[j]),
                            as_map(errors@)[names[j]],
                        )
                    } else {
                        done(op, path@, olds[j], target_store(*self.multi, self.targets.list@[j]))
                    },
                answers.len() == k,
                listed_failures(errors@) == failures(names, answers),
                errors@.len() == 0 ==> forall|j: int| 0 <= j < k ==> (#[trigger] answers[j]) is Ok,
                forall|j: int| #[trigger]
                    made(answers, j) ==> exists|driver: &mut D|
                        *driver == olds[j].backend() && *final(driver) == target_store(
                            *self.multi,
                            self.targets.list@[j],
                        ).backend() && #[trigger] answered(driver, op, path, answers[j]),
            decreases self.targets.list.len() - k,
        {
            let target = self.targets.list[k];
            let ghost before = *self.multi;
            let ghost earlier = answers;
            proof {
                lemma_same_keys(self.multi.stores@, start.stores@);
                assert(valid_target(start, old(self).targets.list@[k as int]));
            }
            let (name, result) = match target {
                Target::Primary => {
                    let result = self.multi.primary.apply(request, path);
                    ("primary".to_string(), result)
                },
                Target::Secondary(i) => {
                    let name = self.multi.stores[i].0.clone();
                    let result = self.multi.stores[i].1.apply(request, path);
                    (name, result)
                },
            };
            let ghost now = target_store(*self.multi, target);
            proof {
                assert(name@ == names[k as int]);
                assert(keys(self.multi.stores@) =~= keys(before.stores@));
                assert forall|j: int| 0 <= j < self.targets.list@.len() && j != k implies target_store(
                    *self.multi,
                    #[trigger] self.targets.list@[j],
                ) == target_store(before, self.targets.list@[j]) by {
                    if j < k {
                        assert(self.targets.list@[j] != self.targets.list@[k as int]);
                    } else {
                        assert(self.targets.list@[k as int] != self.targets.list@[j]);
                    }
                }
                answers = earlier.push(result);
                assert(answers.drop_last() =~= earlier);
                let asked = choose|driver: &mut D|
                    *driver == olds[k as int].backend() && *final(driver) == now.backend()
                        && #[trigger] answered(driver, op, path, result);
                assert forall|j: int| #[trigger] made(answers, j) implies exists|driver: &mut D|
                    *driver == olds[j].backend() && *final(driver) == target_store(
                        *self.multi,
                        self.targets.list@[j],
                    ).backend() && #[trigger] answered(driver, op, path, answers[j]) by {
                    if j < k {
                        assert(made(earlier, j));
                        let driver = choose|driver: &mut D|
                            *driver == olds[j].backend() && *final(driver) == target_store(
                                before,
                                self.targets.list@[j],
                            ).backend() && #[trigger] answered(driver, op, path, earlier[j]);
                        assert(answered(driver, op, path, answers[j]));
                    } else {
                        assert(answered(asked, op, path, answers[j]));
                    }
                }
                assert forall|j: int| 0 <= j < k implies names[j] != name@ by {
                    assert(name_lt(names[j], names[k as int]));
                    lemma_name_lt_asymmetric(names[j], names[k as int]);
                }
                assert forall|e: int| 0 <= e < errors@.len() implies name_lt(
                    (#[trigger] errors@[e]).0@,
                    name@,
                ) by {
                    let j = choose|j: int| 0 <= j < k && names[j] == errors@[e].0@;
                    assert(name_lt(names[j], names[k as int]));
                }
            }
            match result {
                Ok(_) => {
                    proof {
                        assert(done(op, path@, olds[k as int], now));
                        assert(!as_map(errors@).contains_key(names[k as int])) by {
                            if as_map(errors@).contains_key(names[k as int]) {
                                lemma_ascending_distinct(errors@);
                                let e = lemma_index_of(errors@, names[k as int]);
                                lemma_name_lt_asymmetric(errors@[e].0@, name@);
                            }
                        }
                    }
                },
                Err(error) => {
                    proof {
                        assert(failed(op, path@, olds[k as int], now, error));
                    }
                    let ghost recorded = errors@;
                    match self.handle_error_policy(name.as_str(), error, &mut errors) {
                        Ok(_) => {
                            proof {
                                assert(comes_last(recorded, name@));
                                let listed = listed_failures(errors@);
                                assert(errors@.len() == listed.len());
                                assert forall|e: int| 0 <= e < errors@.len() implies exists|j: int|
                                    0 <= j < k + 1 && names[j] == (#[trigger] errors@[e]).0@ by {
                                    assert(listed[e].0 == errors@[e].0@);
                                    if e < recorded.len() {
                                        assert(listed[e] == listed_failures(recorded)[e]);
                                        let j = choose|j: int|
                                            0 <= j < k && names[j] == recorded[e].0@;
                                        assert(0 <= j < k + 1 && names[j] == errors@[e].0@);
                                    } else {
                                        assert(names[k as int] == errors@[e].0@);
                                    }
                                }
                            }
                        },
                        Err(stop) => {
                            let ghost reported = stop;
                            proof {
                                lemma_same_keys(self.multi.stores@, start.stores@);
                                let news = self.target_stores();
                                assert(self.target_names() =~= names);
                                assert(as_map(errors@) =~= Map::<Seq<char>, DriverError>::empty());
                                assert(news[k as int] == now);
                                assert forall|j: int| 0 <= j < k implies done(
                                    op,
                                    path@,
                                    #[trigger] olds[j],
                                    news[j],
                                ) by {
                                    assert(!as_map(errors@).contains_key(names[j]));
                                    assert(news[j] == target_store(*self.multi, self.targets.list@[j]));
                                }
                                assert forall|j: int| k < j < names.len() implies #[trigger] news[j]
                                    == olds[j] by {
                                    assert(news[j] == target_store(*self.multi, self.targets.list@[j]));
                                }
                                assert(stopped_at(op, path@, names, olds, news, k as int, name@, error));
                                self.lemma_frame(*old(self));
                                match reported {
                                    MirrorError::MirrorFailedOnStore(stopped_name, stopped) => {
                                        lemma_stopped(
                                            op,
                                            path@,
                                            names,
                                            olds,
                                            news,
                                            k as int,
                                            stopped_name,
                                            stopped,
                                        );
                                    },
                                    MirrorError::MirrorFailedOnStores(_) => {},
                                }
                                assert(verdict(policy, names, answers, Err(stop)));
                                assert(spared(olds, news, answers.len() as int));
                                assert forall|j: int| #[trigger] made(answers, j) implies exists|
                                    driver: &mut D,
                                |
                                    *driver == olds[j].backend() && *final(driver)
                                        == news[j].backend() && #[trigger] answered(
                                        driver,
                                        op,
                                        path,
                                        answers[j],
                                    ) by {
                                    assert(news[j] == target_store(*self.multi, self.targets.list@[j]));
                                }
                            }
                            return Err(stop);
                        },
                    }
                },
            }
            k = k + 1;
        }
        proof {
            lemma_same_keys(self.multi.stores@, start.stores@);
            assert(self.target_names() =~= names);
            self.lemma_frame(*old(self));
            let news = self.target_stores();
            assert forall|j: int| 0 <= j < names.len() implies if as_map(errors@).contains_key(
                #[trigger] names[j],
            ) {
                failed(op, path@, olds[j], news[j], as_map(errors@)[names[j]])
            } else {
                done(op, path@, olds[j], news[j])
            } by {
                assert(news[j] == target_store(*self.multi, self.targets.list@[j]));
            }
            assert forall|name: Seq<char>| as_map(errors@).contains_key(name) implies names.to_set().contains(
                name,
            ) by {
                lemma_ascending_distinct(errors@);
                let e = lemma_index_of(errors@, name);
                let j = choose|j: int| 0 <= j < k && names[j] == errors@[e].0@;
                assert(names[j] == name);
            }
            lemma_went_through(op, path@, names, olds, news, errors);
            assert(spared(olds, news, answers.len() as int));
            assert forall|j: int| #[trigger] made(answers, j) implies exists|driver: &mut D|
                *driver == olds[j].backend() && *final(driver) == news[j].backend()
                    && #[trigger] answered(driver, op, path, answers[j]) by {
                assert(news[j] == target_store(*self.multi, self.targets.list@[j]));
            }
        }
        if errors.len() == 0 {
            proof {
                assert(verdict(policy, names, answers, Ok(())));
            }
            Ok(())
        } else {
            proof {
                assert(verdict(
                    policy,
                    names,
                    answers,
                    Err(MirrorError::MirrorFailedOnStores(errors)),
                ));
            }
            Err(MirrorError::MirrorFailedOnStores(errors))
        }
    }

    /// What `run` leaves alone, from what its loop keeps.
    proof fn lemma_frame(&self, before: Self)
        requires
            before.wf(),
            self.targets.list@ == before.targets.list@,
            keys(self.multi.stores@) == keys(before.multi.stores@),
            self.multi.mirrors@ == before.multi.mirrors@,
            self.multi.mirrors_policy == before.multi.mirrors_policy,
            forall|i: int|
                0 <= i < before.multi.stores@.len() && (forall|j: int|
                    0 <= j < self.targets.list@.len() ==> self.targets.list@[j] != Target::Secondary(
                        i as usize,
                    )) ==> (#[trigger] self.multi.stores@[i]).1 == before.multi.stores@[i].1,
            (forall|j: int| 0 <= j < self.targets.list@.len() ==> self.targets.list@[j] != Target::Primary)
                ==> self.multi.primary == before.multi.primary,
        ensures
            self.wf(),
            self.policy() == before.policy(),
            self.target_names() == before.target_names(),
            self.with_primary() == before.with_primary(),
            self.target_stores().len() == before.target_stores().len(),
            kept_apart(
                before.base(),
                self.base(),
                before.target_names(),
                before.with_primary(),
            ),
    {
        let a = self.multi.stores@;
        let b = before.multi.stores@;
        assert(b.len() == before.multi.stores.len());
        lemma_same_keys(a, b);
        lemma_ascending_distinct(a);
        lemma_ascending_distinct(b);
        assert(self.target_names() =~= before.target_names());
        assert forall|k: int| 0 <= k < self.targets.list@.len() implies valid_target(
            *self.multi,
            #[trigger] self.targets.list@[k],
        ) by {
            assert(valid_target(*before.multi, before.targets.list@[k]));
        }
        let touched = before.target_names();
        assert forall|name: Seq<char>|
            before.base().registry().contains_key(name) && (!touched.contains(name) || (
            before.with_primary() && name == primary_name()))
            implies #[trigger] self.base().registry()[name] == before.base().registry()[name] by {
            let i = lemma_index_of(b, name);
            lemma_entry(a, i);
            assert forall|j: int| 0 <= j < self.targets.list@.len() implies self.targets.list@[j]
                != Target::Secondary(i as usize) by {
                if self.targets.list@[j] == Target::Secondary(i as usize) {
                    assert(valid_target(*before.multi, before.targets.list@[j]));
                    assert(touched[j] == target_name(*before.multi, before.targets.list@[j]));
                    assert(touched[j] == name);
                    let at = choose|at: int|
                        0 <= at < before.targets.list@.len() && before.targets.list@[at]
                            == Target::Primary;
                    assert(touched[at] == primary_name());
                    if at < j {
                        assert(name_lt(touched[at], touched[j]));
                        lemma_name_lt_asymmetric(touched[at], touched[j]);
                    } else {
                        assert(name_lt(touched[j], touched[at]));
                        lemma_name_lt_asymmetric(touched[j], touched[at]);
                    }
                }
            }
        }
    }

    /// Stores `content` at `path` in every target, in the order of their
    /// names, and answers to what their stores answered: see `verdict`.
    pub fn write(&mut self, path: &str, content: &[u8]) -> (res: Result<(), MirrorError>)
        requires
            old(self).wf(),
        ensures
            final(self).wf(),
            *final(final(self).multi) == *final(old(self).multi),
            outcome(*old(self), *final(self), Operation::Write(content@), path@, res),
            exists|answers: Seq<Result<(), DriverError>>|
                {
                    &&& #[trigger] verdict(
                        old(self).policy(),
                        old(self).target_names(),
                        answers,
                        res,
                    )
                    &&& spared(
                        old(self).target_stores(),
                        final(self).target_stores(),
                        answers.len() as int,
                    )
                    &&& forall|k: int| #[trigger]
                        made(answers, k) ==> exists|driver: &mut D|
                            *driver == old(self).target_stores()[k].backend() && *final(driver)
                                == final(self).target_stores()[k].backend() && #[trigger] answered(
                                driver,
                                Operation::Write(content@),
                                path,
                                answers[k],
                            )
                },
    {
        self.run(&Request::Write(content), path)
    }

    /// Removes the object at `path` from every target, in the order of
    /// their names, and answers to what their stores answered: see
    /// `verdict`.
    pub fn delete(&mut self, path: &str) -> (res: Result<(), MirrorError>)
        requires
            old(self).wf(),
        ensures
            final(self).wf(),
            *final(final(self).multi) == *final(old(self).multi),
            outcome(*old(self), *final(self), Operation::Delete, path@, res),
            exists|answers: Seq<Result<(), DriverError>>|
                {
                    &&& #[trigger] verdict(
                        old(self).policy(),
                        old(self).target_names(),
                        answers,
                        res,
                    )
                    &&& spared(
                        old(self).target_stores(),
                        final(self).target_stores(),
                        answers.len() as int,
                    )
                    &&& forall|k: int| #[trigger]
                        made(answers, k) ==> exists|driver: &mut D|
                            *driver == old(self).target_stores()[k].backend() && *final(driver)
                                == final(self).target_stores()[k].backend() && #[trigger] answered(
                                driver,
                                Operation::Delete,
                                path,
                                answers[k],
                            )
                },
    {
        self.run(&Request::Delete, path)
    }

    /// Removes every object that lies in the directory `path` from every
    /// target, in the order of their names, and answers to what their
    /// stores answered: see `verdict`.
    pub fn delete_directory(&mut self, path: &str) -> (res: Result<(), MirrorError>)
        requires
            old(self).wf(),
        ensures
            final(self).wf(),
            *final(final(self).multi) == *final(old(self).multi),
            outcome(*old(self), *final(self), Operation::DeleteDirectory, path@, res),
            exists|answers: Seq<Result<(), DriverError>>|
                {
                    &&& #[trigger] verdict(
                        old(self).policy(),
                        old(self).target_names(),
                        answers,
                        res,
                    )
                    &&& spared(
                        old(self).target_stores(),
                        final(self).target_stores(),
                        answers.len() as int,
                    )
                    &&& forall|k: int| #[trigger]
                        made(answers, k) ==> exists|driver: &mut D|
                            *driver == old(self).target_stores()[k].backend() && *final(driver)
                                == final(self).target_stores()[k].backend() && #[trigger] answered(
                                driver,
                                Operation::DeleteDirectory,
                                path,
                                answers[k],
                            )
                },
    {
        self.run(&Request::DeleteDirectory, path)
    }
}

/// Whether `name` is one of the names in `list`.
fn is_listed(list: &Vec<String>, name: &str) -> (listed: bool)
    ensures
        listed == names_of(list@).contains(name@),
{
    let wanted = name.to_string();
    let mut i: usize = 0;
    while i < list.len()
        invariant
            i <= list.len(),
            wanted@ == name@,
            forall|j: int| 0 <= j < i ==> names_of(list@)[j] != name@,
        decreases list.len() - i,
    {
        if list[i] == wanted {
            assert(names_of(list@)[i as int] == name@);
            return true;
        }
        i = i + 1;
    }
    false
}

impl<D: Driver> MultiStore<D> {
    /// A fan-out over the primary store, under the name `primary`, and
    /// every secondary store under its own name, in ascending order of the
    /// names. The name `primary` always stands for the primary store: a
    /// secondary store that was registered under that name takes no part.
    pub fn mirror_stores_from_primary(&mut self) -> (mirror: Mirror<'_, D>)
        requires
            old(self).wf(),
        ensures
            mirror.wf(),
            mirror.base() == *old(self),
            *final(self) == *final(mirror.multi),
            mirror.policy() == old(self).policy(),
            mirror.with_primary(),
            ascending(mirror.target_names()),
            mirror.target_names().to_set() == old(self).registry().dom().insert(primary_name()),
            mirror.target_stores().len() == mirror.target_names().len(),
            forall|k: int|
                0 <= k < mirror.target_names().len() ==> #[trigger] mirror.target_stores()[k] == (
                if mirror.target_names()[k] == primary_name() {
                    old(self).primary_store()
                } else {
                    old(self).registry()[mirror.target_names()[k]]
                }),
    {
        let mut targets: Vec<Target> = Vec::new();
        let mut placed = false;
        let mut i: usize = 0;
        let ghost multi = *self;
        let ghost primary_at: int = 0;
        proof {
            lemma_ascending_distinct(self.stores@);
        }
        while i < self.stores.len()
            invariant
                i <= self.stores.len(),
                multi == *self,
                self.wf(),
                distinct_keys(self.stores@),
                ascending(targets_names(multi, targets@)),
                forall|k: int|
                    0 <= k < targets@.len() ==> (#[trigger] targets@[k] matches Target::Secondary(x)
                        ==> x < i),
                forall|k: int, j: int|
                    0 <= k < targets@.len() && i <= j < self.stores@.len() ==> name_lt(
                        target_name(multi, #[trigger] targets@[k]),
                        (#[trigger] self.stores@[j]).0@,
                    ),
                !placed ==> forall|j: int|
                    0 <= j < i ==> name_lt((#[trigger] self.stores@[j]).0@, primary_name()),
                placed ==> forall|j: int|
                    i <= j < self.stores@.len() ==> name_lt(
                        primary_name(),
                        (#[trigger] self.stores@[j]).0@,
                    ),
                !placed ==> forall|k: int|
                    0 <= k < targets@.len() ==> #[trigger] targets@[k] is Secondary,
                placed ==> 0 <= primary_at < targets@.len() && targets@[primary_at]
                    == Target::Primary,
                forall|j: int|
                    0 <= j < i && self.stores@[j].0@ != primary_name() ==> #[trigger] has_secondary(
                        targets@,
                        j,
                    ),
            decreases self.stores.len() - i,
        {
            let ghost here = self.stores@[i as int].0@;
            proof {
                assert forall|j: int| i < j < self.stores@.len() implies name_lt(
                    here,
                    (#[trigger] self.stores@[j]).0@,
                ) by {
                    assert(name_lt(keys(self.stores@)[i as int], keys(self.stores@)[j]));
                }
            }
            let mut same = false;
            if !placed {
                match compare_names("primary", self.stores[i].0.as_str()) {
                    NameOrder::Before => {
                        proof {
                            assert forall|j: int| i <= j < self.stores@.len() implies name_lt(
                                primary_name(),
                                (#[trigger] self.stores@[j]).0@,
                            ) by {
                                if j > i {
                                    lemma_name_lt_transitive(
                                        primary_name(),
                                        here,
                                        self.stores@[j].0@,
                                    );
                                }
                            }
                            assert forall|k: int| 0 <= k < targets@.len() implies name_lt(
                                target_name(multi, #[trigger] targets@[k]),
                                primary_name(),
                            ) by {
                                assert(targets@[k] is Secondary);
                            }
                            lemma_targets_push(multi, targets@, Target::Primary);
                            lemma_secondary_kept(targets@, Target::Primary);
                            primary_at = targets@.len() as int;
                        }
                        targets.push(Target::Primary);
                        placed = true;
                    },
                    NameOrder::Same => {
                        proof {
                            assert forall|k: int| 0 <= k < targets@.len() implies name_lt(
                                target_name(multi, #[trigger] targets@[k]),
                                primary_name(),
                            ) by {
                                assert(targets@[k] is Secondary);
                            }
                            lemma_targets_push(multi, targets@, Target::Primary);
                            lemma_secondary_kept(targets@, Target::Primary);
                            primary_at = targets@.len() as int;
                        }
                        targets.push(Target::Primary);
                        placed = true;
                        same = true;
                    },
                    NameOrder::After => {},
                }
            }
            if !same {
                proof {
                    lemma_targets_push(multi, targets@, Target::Secondary(i));
                    lemma_secondary_kept(targets@, Target::Secondary(i));
                }
                targets.push(Target::Secondary(i));
                proof {
                    assert(targets@[targets@.len() - 1] == Target::Secondary(i as int as usize));
                    assert(has_secondary(targets@, i as int));
                }
            }
            i = i + 1;
        }
        if !placed {
            proof {
                assert forall|k: int| 0 <= k < targets@.len() implies name_lt(
                    target_name(multi, #[trigger] targets@[k]),
                    primary_name(),
                ) by {
                    assert(targets@[k] is Secondary);
                }
                lemma_targets_push(multi, targets@, Target::Primary);
                lemma_secondary_kept(targets@, Target::Primary);
                primary_at = targets@.len() as int;
            }
            targets.push(Target::Primary);
        }
        let mirror = Mirror { multi: self, targets: Targets { list: targets } };
        proof {
            assert(mirror.target_names() =~= targets_names(multi, mirror.targets.list@));
            assert(mirror.targets.list@[primary_at] == Target::Primary);
            assert(mirror.with_primary());
            mirror.lemma_targets();
            let names = mirror.target_names();
            assert forall|name: Seq<char>| names.to_set().contains(name)
                <==> multi.registry().dom().insert(primary_name()).contains(name) by {
                if names.to_set().contains(name) {
                    let k = choose|k: int| 0 <= k < names.len() && names[k] == name;
                    match mirror.targets.list@[k] {
                        Target::Primary => {},
                        Target::Secondary(x) => {
                            lemma_entry(multi.stores@, x as int);
                        },
                    }
                }
                if name == primary_name() {
                    assert(names[primary_at] == name);
                } else if multi.registry().contains_key(name) {
                    let j = lemma_index_of(multi.stores@, name);
                    assert(has_secondary(mirror.targets.list@, j));
                    let k = choose|k: int|
                        0 <= k < mirror.targets.list@.len() && #[trigger] mirror.targets.list@[k]
                            == Target::Secondary(j as usize);
                    assert(names[k] == name);
                }
            }
            assert(names.to_set() =~= multi.registry().dom().insert(primary_name()));
        }
        mirror
    }

    /// A fan-out over the members of the group `name` that are registered,
    /// in ascending order of their names; `None` where no group has that
    /// name.
    pub fn mirror(&mut self, name: &str) -> (found: Option<Mirror<'_, D>>)
        requires
            old(self).wf(),
        ensures
            match found {
                None => !old(self).mirrors().contains_key(name@) && *final(self) == *old(self),
                Some(mirror) => {
                    &&& old(self).mirrors().contains_key(name@)
                    &&& mirror.wf()
                    &&& mirror.base() == *old(self)
                    &&& *final(self) == *final(mirror.multi)
                    &&& mirror.policy() == old(self).policy()
                    &&& !mirror.with_primary()
                    &&& ascending(mirror.target_names())
                    &&& mirror.target_names().to_set() == old(self).registry().dom().intersect(
                        old(self).mirrors()[name@].to_set(),
                    )
                    &&& mirror.target_stores().len() == mirror.target_names().len()
                    &&& forall|k: int|
                        0 <= k < mirror.target_names().len()
                            ==> #[trigger] mirror.target_stores()[k] == old(
                            self,
                        ).registry()[mirror.target_names()[k]]
                },
            },
    {
        proof {
            lemma_ascending_distinct(self.stores@);
        }
        let ghost multi = *self;
        let group = match position(&self.mirrors, name) {
            Some(group) => group,
            None => {
                return None;
            },
        };
        proof {
            lemma_entry(self.mirrors@, group as int);
        }
        let ghost members = names_of(self.mirrors@[group as int].1@);
        let mut targets: Vec<Target> = Vec::new();
        let mut i: usize = 0;
        while i < self.stores.len()
            invariant
                i <= self.stores.len(),
                group < self.mirrors.len(),
                multi == *self,
                self.wf(),
                distinct_keys(self.stores@),
                members == names_of(self.mirrors@[group as int].1@),
                ascending(targets_names(multi, targets@)),
                forall|k: int|
                    0 <= k < targets@.len() ==> (#[trigger] targets@[k] matches Target::Secondary(x)
                        && x < i && members.contains(self.stores@[x as int].0@)),
                forall|k: int, j: int|
                    0 <= k < targets@.len() && i <= j < self.stores@.len() ==> name_lt(
                        target_name(multi, #[trigger] targets@[k]),
                        (#[trigger] self.stores@[j]).0@,
                    ),
                forall|j: int|
                    0 <= j < i && members.contains(self.stores@[j].0@) ==> #[trigger] has_secondary(
                        targets@,
                        j,
                    ),
            decreases self.stores.len() - i,
        {
            let ghost here = self.stores@[i as int].0@;
            proof {
                assert forall|j: int| i < j < self.stores@.len() implies name_lt(
                    here,
                    (#[trigger] self.stores@[j]).0@,
                ) by {
                    assert(name_lt(keys(self.stores@)[i as int], keys(self.stores@)[j]));
                }
            }
            if is_listed(&self.mirrors[group].1, self.stores[i].0.as_str()) {
                proof {
                    lemma_targets_push(multi, targets@, Target::Secondary(i));
                    lemma_secondary_kept(targets@, Target::Secondary(i));
                }
                targets.push(Target::Secondary(i));
                proof {
                    assert(targets@[targets@.len() - 1] == Target::Secondary(i as int as usize));
                    assert(has_secondary(targets@, i as int));
                }
            }
            i = i + 1;
        }
        let mirror = Mirror { multi: self, targets: Targets { list: targets } };
        proof {
            assert(mirror.target_names() =~= targets_names(multi, mirror.targets.list@));
            assert(!mirror.with_primary()) by {
                if mirror.with_primary() {
                    let at = choose|at: int|
                        0 <= at < mirror.targets.list@.len() && mirror.targets.list@[at]
                            == Target::Primary;
                    assert(mirror.targets.list@[at] is Secondary);
                }
            }
            mirror.lemma_targets();
            let names = mirror.target_names();
            let wanted = multi.registry().dom().intersect(multi.mirrors()[name@].to_set());
            assert(multi.mirrors()[name@] == members);
            assert forall|n: Seq<char>| names.to_set().contains(n) <==> wanted.contains(n) by {
                if names.to_set().contains(n) {
                    let k = choose|k: int| 0 <= k < names.len() && names[k] == n;
                    match mirror.targets.list@[k] {
                        Target::Primary => {},
                        Target::Secondary(x) => {
                            lemma_entry(multi.stores@, x as int);
                        },
                    }
                }
                if wanted.contains(n) {
                    let j = lemma_index_of(multi.stores@, n);
                    assert(has_secondary(mirror.targets.list@, j));
                    let k = choose|k: int|
                        0 <= k < mirror.targets.list@.len() && #[trigger] mirror.targets.list@[k]
                            == Target::Secondary(j as usize);
                    assert(names[k] == n);
                }
            }
            assert(names.to_set() =~= wanted);
            assert forall|k: int| 0 <= k < names.len() implies multi.registry().contains_key(
                #[trigger] names[k],
            ) by {
                assert(names.to_set().contains(names[k]));
            }
        }
        Some(mirror)
    }
}

/// The secondary store at index `j` is among the targets.
spec fn has_secondary(targets: Seq<Target>, j: int) -> bool {
    exists|k: int| 0 <= k < targets.len() && #[trigger] targets[k] == Target::Secondary(j as usize)
}

/// A target that is added takes none away.
proof fn lemma_secondary_kept(targets: Seq<Target>, next: Target)
    ensures
        forall|j: int| has_secondary(targets, j) ==> #[trigger] has_secondary(targets.push(next), j),
{
    assert forall|j: int| has_secondary(targets, j) implies #[trigger] has_secondary(
        targets.push(next),
        j,
    ) by {
        let k = choose|k: int|
            0 <= k < targets.len() && #[trigger] targets[k] == Target::Secondary(j as usize);
        assert(targets.push(next)[k] == Target::Secondary(j as usize));
    }
}

/// The names of some targets, in their order.
spec fn targets_names<D: Driver>(multi: MultiStore<D>, targets: Seq<Target>) -> Seq<Seq<char>> {
    Seq::new(targets.len(), |k: int| target_name(multi, targets[k]))
}

/// A target whose name comes after those of all the others may follow
/// them.
proof fn lemma_targets_push<D: Driver>(multi: MultiStore<D>, targets: Seq<Target>, next: Target)
    requires
        ascending(targets_names(multi, targets)),
        forall|k: int|
            0 <= k < targets.len() ==> name_lt(
                target_name(multi, #[trigger] targets[k]),
                target_name(multi, next),
            ),
    ensures
        ascending(targets_names(multi, targets.push(next))),
{
    let before = targets_names(multi, targets);
    let after = targets_names(multi, targets.push(next));
    assert forall|a: int, b: int| 0 <= a < b < after.len() implies name_lt(
        #[trigger] after[a],
        #[trigger] after[b],
    ) by {
        if b < targets.len() {
            assert(name_lt(before[a], before[b]));
        } else {
            assert(name_lt(target_name(multi, targets[a]), target_name(multi, next)));
        }
    }
}

/// The names that `add_mirrors` reports are all the names asked for that
/// are not registered, and no others; none is missing exactly when every
/// name asked for is registered.
pub proof fn lemma_unknown_among(known: Set<Seq<char>>, wanted: Seq<Seq<char>>)
    ensures
        forall|name: Seq<char>|
            unknown_among(known, wanted).contains(name) <==> wanted.contains(name)
                && !known.contains(name),
        unknown_among(known, wanted).len() == 0 <==> forall|i: int|
            0 <= i < wanted.len() ==> known.contains(#[trigger] wanted[i]),
    decreases wanted.len(),
{
    let unknown = unknown_among(known, wanted);
    if wanted.len() > 0 {
        let front = wanted.drop_last();
        let last = wanted.last();
        let rest = unknown_among(known, front);
        lemma_unknown_among(known, front);
        assert(forall|j: int| 0 <= j < front.len() ==> front[j] == wanted[j]);
        assert forall|name: Seq<char>| unknown.contains(name) implies wanted.contains(name)
            && !known.contains(name) by {
            let i = choose|i: int| 0 <= i < unknown.len() && unknown[i] == name;
            if i < rest.len() {
                assert(rest[i] == name);
                assert(rest.contains(name));
                assert(front.contains(name) && !known.contains(name));
                let j = choose|j: int| 0 <= j < front.len() && front[j] == name;
                assert(wanted[j] == name);
            } else {
                assert(!known.contains(last));
                assert(unknown[i] == last);
                assert(wanted[wanted.len() - 1] == name);
            }
        }
        assert forall|name: Seq<char>|
            wanted.contains(name) && !known.contains(name) implies unknown.contains(name) by {
            let j = choose|j: int| 0 <= j < wanted.len() && wanted[j] == name;
            if j < front.len() {
                assert(front[j] == name);
                assert(front.contains(name));
                assert(rest.contains(name));
                let i = choose|i: int| 0 <= i < rest.len() && rest[i] == name;
                assert(unknown[i] == name);
            } else {
                assert(last == name);
                assert(unknown[unknown.len() - 1] == name);
            }
        }
        if unknown.len() == 0 {
            assert(known.contains(last));
            assert forall|i: int| 0 <= i < wanted.len() implies known.contains(
                #[trigger] wanted[i],
            ) by {
                if i < front.len() {
                    assert(front[i] == wanted[i]);
                }
            }
        }
        if forall|i: int| 0 <= i < wanted.len() ==> known.contains(#[trigger] wanted[i]) {
            assert forall|i: int| 0 <= i < front.len() implies known.contains(
                #[trigger] front[i],
            ) by {
                assert(front[i] == wanted[i]);
            }
            assert(known.contains(wanted[wanted.len() - 1]));
        }
    }
}

/// Under `ContinueOnFailure` a failure holds back no other target: every
/// target that is not reported as failed took the write, and holds the
/// content at the path.
pub proof fn lemma_continue_reaches_the_rest<D: Driver>(
    path: Seq<char>,
    content: Seq<u8>,
    names: Seq<Seq<char>>,
    before: Seq<Store<D>>,
    after: Seq<Store<D>>,
    errors: Vec<(String, DriverError)>,
    k: int,
)
    requires
        fanned_out(
            Policy::ContinueOnFailure,
            Operation::Write(content),
            path,
            names,
            before,
            after,
            Err(MirrorError::MirrorFailedOnStores(errors)),
        ),
        0 <= k < names.len(),
        !keys(errors@).contains(names[k]),
    ensures
        after[k].files().contains_key(path),
        after[k].files()[path] == content,
{
    if as_map(errors@).contains_key(names[k]) {
        let i = choose|i: int| key_at(errors@, names[k], i);
        assert(keys(errors@)[i] == names[k]);
    }
    assert(done(Operation::Write(content), path, before[k], after[k]));
}

/// Under `StopOnFailure` nothing after the failing target is touched: the
/// store of every target whose name comes after the reported one is what
/// it was.
pub proof fn lemma_stop_spares_the_rest<D: Driver>(
    op: Operation,
    path: Seq<char>,
    names: Seq<Seq<char>>,
    before: Seq<Store<D>>,
    after: Seq<Store<D>>,
    name: String,
    error: DriverError,
    j: int,
)
    requires
        ascending(names),
        fanned_out(
            Policy::StopOnFailure,
            op,
            path,
            names,
            before,
            after,
            Err(MirrorError::MirrorFailedOnStore(name, error)),
        ),
        0 <= j < names.len(),
        name_lt(name@, names[j]),
    ensures
        after[j] == before[j],
{
    let k = choose|k: int| stopped_at(op, path, names, before, after, k, name@, error);
    if j < k {
        assert(name_lt(names[j], names[k]));
        lemma_name_lt_asymmetric(names[j], names[k]);
    } else if j == k {
        lemma_name_lt_asymmetric(name@, names[j]);
    }
}

/// When success is owed: over reliable stores a fan-out succeeds exactly
/// when every target holds what the request works on.
pub proof fn lemma_fan_out_over_reliable_stores<D: Driver>(
    policy: Policy,
    op: Operation,
    path: Seq<char>,
    names: Seq<Seq<char>>,
    before: Seq<Store<D>>,
    after: Seq<Store<D>>,
    res: Result<(), MirrorError>,
)
    requires
        fanned_out(policy, op, path, names, before, after, res),
        forall|k: int| 0 <= k < names.len() ==> (#[trigger] before[k]).reliable(),
    ensures
        res is Ok <==> forall|k: int|
            0 <= k < names.len() ==> !lacking(op, path, #[trigger] before[k]),
{
    match res {
        Ok(_) => {
            assert forall|k: int| 0 <= k < names.len() implies !lacking(
                op,
                path,
                #[trigger] before[k],
            ) by {
                assert(done(op, path, before[k], after[k]));
            }
        },
        Err(MirrorError::MirrorFailedOnStore(name, error)) => {
            let k = choose|k: int| stopped_at(op, path, names, before, after, k, name@, error);
            assert(before[k].reliable());
            assert(lacking(op, path, before[k]));
        },
        Err(MirrorError::MirrorFailedOnStores(errors)) => {
            lemma_ascending_distinct(errors@);
            lemma_entry(errors@, 0);
            let name = errors@[0].0@;
            assert(names.to_set().contains(name));
            let k = choose|k: int| 0 <= k < names.len() && names[k] == name;
            assert(as_map(errors@).contains_key(names[k]));
            assert(before[k].reliable());
            assert(lacking(op, path, before[k]));
        },
    }
}

/// The store of the target `k` answered an error.
pub open spec fn fails_at(answers: Seq<Result<(), DriverError>>, k: int) -> bool {
    0 <= k < answers.len() && answers[k] is Err
}

/// The failure of the target `k`: its name, with the error that its store
/// answered.
pub open spec fn failure_of(
    names: Seq<Seq<char>>,
    answers: Seq<Result<(), DriverError>>,
    k: int,
) -> (Seq<char>, DriverError) {
    (names[k], answers[k]->Err_0)
}

/// The entry is the failure of one of the targets.
pub open spec fn is_failure(
    names: Seq<Seq<char>>,
    answers: Seq<Result<(), DriverError>>,
    entry: (Seq<char>, DriverError),
) -> bool {
    exists|k: int| #[trigger] fails_at(answers, k) && entry == failure_of(names, answers, k)
}

/// The failures among the answers are those of the targets whose store
/// answered an error, and no others: each stands under the name of its
/// target, with the error of that target's store.
pub proof fn lemma_failures(names: Seq<Seq<char>>, answers: Seq<Result<(), DriverError>>)
    ensures
        forall|i: int|
            0 <= i < failures(names, answers).len() ==> is_failure(
                names,
                answers,
                #[trigger] failures(names, answers)[i],
            ),
        forall|k: int| #[trigger]
            fails_at(answers, k) ==> failures(names, answers).contains(
                failure_of(names, answers, k),
            ),
    decreases answers.len(),
{
    let all = failures(names, answers);
    if answers.len() > 0 {
        let front = answers.drop_last();
        let rest = failures(names, front);
        let last = answers.len() - 1;
        lemma_failures(names, front);
        assert forall|i: int| 0 <= i < all.len() implies is_failure(
            names,
            answers,
            #[trigger] all[i],
        ) by {
            if i < rest.len() {
                assert(is_failure(names, front, rest[i]));
                let k = choose|k: int| #[trigger]
                    fails_at(front, k) && rest[i] == failure_of(names, front, k);
                assert(fails_at(answers, k) && all[i] == failure_of(names, answers, k));
            } else {
                assert(fails_at(answers, last) && all[i] == failure_of(names, answers, last));
            }
        }
        assert forall|k: int| #[trigger] fails_at(answers, k) implies all.contains(
            failure_of(names, answers, k),
        ) by {
            if k < last {
                assert(fails_at(front, k));
                let i = choose|i: int|
                    0 <= i < rest.len() && rest[i] == failure_of(names, front, k);
                assert(all[i] == failure_of(names, answers, k));
            } else {
                assert(all[all.len() - 1] == failure_of(names, answers, k));
            }
        }
    }
}

/// Under `ContinueOnFailure` a fan-out that fails reports exactly the
/// targets whose store answered an error, each under its name and with
/// the error of its store; every other target took the request.
pub proof fn lemma_continue_reports_the_failed<D: Driver>(
    op: Operation,
    path: Seq<char>,
    names: Seq<Seq<char>>,
    before: Seq<Store<D>>,
    after: Seq<Store<D>>,
    answers: Seq<Result<(), DriverError>>,
    errors: Vec<(String, DriverError)>,
    k: int,
)
    requires
        ascending(names),
        verdict(
            Policy::ContinueOnFailure,
            names,
            answers,
            Err(MirrorError::MirrorFailedOnStores(errors)),
        ),
        fanned_out(
            Policy::ContinueOnFailure,
            op,
            path,
            names,
            before,
            after,
            Err(MirrorError::MirrorFailedOnStores(errors)),
        ),
        0 <= k < names.len(),
    ensures
        match answers[k] {
            Err(error) => as_map(errors@).contains_key(names[k]) && as_map(errors@)[names[k]]
                == error,
            Ok(_) => !as_map(errors@).contains_key(names[k]) && done(
                op,
                path,
                before[k],
                after[k],
            ),
        },
{
    let listed = listed_failures(errors@);
    lemma_failures(names, answers);
    lemma_ascending_distinct(errors@);
    match answers[k] {
        Err(error) => {
            assert(fails_at(answers, k));
            let i = choose|i: int|
                0 <= i < listed.len() && listed[i] == failure_of(names, answers, k);
            lemma_entry(errors@, i);
        },
        Ok(_) => {
            if as_map(errors@).contains_key(names[k]) {
                let i = lemma_index_of(errors@, names[k]);
                assert(listed[i].0 == names[k]);
                assert(is_failure(names, answers, listed[i]));
                let j = choose|j: int| #[trigger]
                    fails_at(answers, j) && listed[i] == failure_of(names, answers, j);
                if j < k {
                    assert(name_lt(names[j], names[k]));
                    lemma_name_lt_asymmetric(names[j], names[k]);
                } else if k < j {
                    assert(name_lt(names[k], names[j]));
                    lemma_name_lt_asymmetric(names[k], names[j]);
                }
            }
        },
    }
}

/// Under `ContinueOnFailure`, when one of two targets fails and the other
/// succeeds, the write reports the one that failed, with the error of its
/// store, and nothing else; the other target holds the content at the
/// path.
pub proof fn lemma_one_of_two_failed<D: Driver>(
    path: Seq<char>,
    content: Seq<u8>,
    names: Seq<Seq<char>>,
    before: Seq<Store<D>>,
    after: Seq<Store<D>>,
    answers: Seq<Result<(), DriverError>>,
    res: Result<(), MirrorError>,
    a: int,
    error: DriverError,
)
    requires
        names.len() == 2,
        ascending(names),
        0 <= a < 2,
        answers.len() == 2,
        answers[a] == Err::<(), DriverError>(error),
        answers[1 - a] is Ok,
        verdict(Policy::ContinueOnFailure, names, answers, res),
        fanned_out(
            Policy::ContinueOnFailure,
            Operation::Write(content),
            path,
            names,
            before,
            after,
            res,
        ),
    ensures
        res matches Err(MirrorError::MirrorFailedOnStores(errors)) && listed_failures(errors@)
            == seq![(names[a], error)],
        after[1 - a].files().contains_key(path),
        after[1 - a].files()[path] == content,
{
    let front = answers.drop_last();
    assert(front.drop_last() =~= Seq::<Result<(), DriverError>>::empty());
    assert(failures(names, front.drop_last()) =~= Seq::<(Seq<char>, DriverError)>::empty());
    assert(failures(names, answers) =~= seq![(names[a], error)]) by {
        reveal_with_fuel(failures, 3);
    }
    match res {
        Err(MirrorError::MirrorFailedOnStores(errors)) => {
            let b = 1 - a;
            let listed = listed_failures(errors@);
            lemma_ascending_distinct(errors@);
            assert(errors@.len() == listed.len());
            assert(name_lt(names[0], names[1]));
            lemma_name_lt_asymmetric(names[0], names[1]);
            if as_map(errors@).contains_key(names[b]) {
                let i = lemma_index_of(errors@, names[b]);
                assert(listed[i].0 == names[b]);
            }
            assert(done(Operation::Write(content), path, before[b], after[b]));
        },
        _ => {
            assert(answers[a] is Err);
        },
    }
}

/// Under `StopOnFailure`, when the store of the first target answers an
/// error, the fan-out reports that target with that error, and no later
/// target is touched: each holds what it held.
pub proof fn lemma_first_failure_stops<D: Driver>(
    names: Seq<Seq<char>>,
    before: Seq<Store<D>>,
    after: Seq<Store<D>>,
    answers: Seq<Result<(), DriverError>>,
    res: Result<(), MirrorError>,
    error: DriverError,
)
    requires
        before.len() == names.len(),
        answers.len() > 0,
        answers[0] == Err::<(), DriverError>(error),
        verdict(Policy::StopOnFailure, names, answers, res),
        spared(before, after, answers.len() as int),
    ensures
        res matches Err(MirrorError::MirrorFailedOnStore(name, stopped)) && name@ == names[0]
            && stopped == error,
        forall|k: int| 1 <= k < names.len() ==> #[trigger] after[k] == before[k],
{
    assert(answers[0] is Err);
}

} // verus!
