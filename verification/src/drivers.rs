//! The capability contract that every storage backend satisfies, stated over
//! the objects that the backend holds.
use crate::errors::DriverError;
use std::time::{Duration, SystemTime};
use vstd::prelude::*;

pub mod aws_s3;
pub mod azure;
pub mod disk;
pub mod gcp_storage;
pub mod inmem;

verus! {

/// `SystemTime` of std: a point in time, carried through as it is.
#[verifier::external_type_specification]
#[verifier::external_body]
pub struct ExSystemTime(SystemTime);

/// Whether the path `path` lies in the directory `base`, as
/// `std::path::Path::starts_with` decides it: component by component, so
/// that `foo/bar` lies in `foo` and `foobar` does not.
pub uninterp spec fn path_starts_with(path: Seq<char>, base: Seq<char>) -> bool;

/// `Path::starts_with` of std, on the two paths written as text.
#[verifier::external_body]
pub(crate) fn starts_with(path: &str, base: &str) -> (inside: bool)
    ensures
        inside == path_starts_with(path@, base@),
{
    std::path::Path::new(path).starts_with(base)
}

/// `SystemTime::now` of std. Nothing is known of the time it returns.
#[verifier::external_body]
pub(crate) fn now() -> SystemTime {
    SystemTime::now()
}

/// `SystemTime::checked_add` of std, on the Unix epoch and the duration of
/// `secs` seconds and `nanos` nanoseconds: the time that lies so long after
/// the epoch, or `None` where a `SystemTime` cannot hold it. Nothing is
/// stated of the time.
#[verifier::external_body]
pub(crate) fn after_epoch(secs: u64, nanos: u32) -> Option<SystemTime>
    requires
        nanos < 1_000_000_000,
{
    SystemTime::UNIX_EPOCH.checked_add(Duration::new(secs, nanos))
}

/// `SystemTime::checked_sub` of std, on the Unix epoch and the duration of
/// `secs` seconds and `nanos` nanoseconds: the time that lies so long
/// before the epoch, or `None` where a `SystemTime` cannot hold it. Nothing
/// is stated of the time.
#[verifier::external_body]
pub(crate) fn before_epoch(secs: u64, nanos: u32) -> Option<SystemTime>
    requires
        nanos < 1_000_000_000,
{
    SystemTime::UNIX_EPOCH.checked_sub(Duration::new(secs, nanos))
}

/// The nanoseconds in a second.
pub const NANOS_PER_SECOND: u128 = 1_000_000_000;

/// `time` is what a `SystemTime` makes of the point that lies `nanos`
/// nanoseconds after the Unix epoch, or before it where `nanos` is
/// negative: the whole seconds and the nanoseconds left over are handed to
/// the clock's own arithmetic, and `time` is `None` where a `SystemTime`
/// cannot hold the point.
pub closed spec fn time_at_offset(nanos: int, time: Option<SystemTime>) -> bool {
    let length = if nanos >= 0 {
        nanos
    } else {
        -nanos
    };
    let secs = length / (NANOS_PER_SECOND as int);
    let rest = length % (NANOS_PER_SECOND as int);
    if secs > u64::MAX {
        time is None
    } else if nanos >= 0 {
        call_ensures(after_epoch, (secs as u64, rest as u32), time)
    } else {
        call_ensures(before_epoch, (secs as u64, rest as u32), time)
    }
}

/// The point in time that lies `nanos` nanoseconds after the Unix epoch,
/// or before it where `nanos` is negative; `None` where a `SystemTime`
/// cannot hold it.
pub fn system_time_at(nanos: i128) -> (time: Option<SystemTime>)
    ensures
        time_at_offset(nanos as int, time),
{
    let length: u128 = if nanos >= 0 {
        nanos as u128
    } else if nanos == i128::MIN {
        170141183460469231731687303715884105728u128
    } else {
        (-nanos) as u128
    };
    let secs: u128 = length / NANOS_PER_SECOND;
    let rest: u128 = length % NANOS_PER_SECOND;
    if secs > u64::MAX as u128 {
        None
    } else if nanos >= 0 {
        after_epoch(secs as u64, rest as u32)
    } else {
        before_epoch(secs as u64, rest as u32)
    }
}

/// `time` is a time that the clock gave: what one call of `now` answered.
pub closed spec fn told_by_clock(time: SystemTime) -> bool {
    call_ensures(now, (), time)
}

/// The objects of a backend: the content stored at each path.
pub type Files = Map<Seq<char>, Seq<u8>>;

/// Some object of `files` lies in the directory `dir`.
pub open spec fn has_object_under(files: Files, dir: Seq<char>) -> bool {
    exists|path: Seq<char>| #[trigger] files.contains_key(path) && path_starts_with(path, dir)
}

/// The paths that lie in the directory `dir`.
pub open spec fn directory(dir: Seq<char>) -> Set<Seq<char>> {
    Set::new(|path: Seq<char>| path_starts_with(path, dir))
}

/// `files` without the objects that lie in the directory `dir`.
pub open spec fn without_directory(files: Files, dir: Seq<char>) -> Files {
    files.remove_keys(directory(dir))
}

/// A storage backend.
///
/// `files` is what the backend holds. A backend that is `reliable` has no
/// failures of its own (no network, no credentials): each operation then
/// succeeds whenever its object exists, and fails with `ResourceNotFound`
/// when it does not. Of any backend, an operation that succeeded did what
/// it was asked to.
pub trait Driver {
    /// The objects that the backend holds. A backend says what they are.
    closed spec fn files(&self) -> Files {
        arbitrary()
    }

    /// No operation fails for a reason of the backend's own. A backend is
    /// taken not to be reliable unless it says so.
    closed spec fn reliable(&self) -> bool {
        false
    }

    /// The content stored at `path`.
    fn read(&self, path: &str) -> (res: Result<Vec<u8>, DriverError>)
        ensures
            res matches Ok(content) ==> self.files().contains_key(path@) && content@
                == self.files()[path@],
            self.reliable() && self.files().contains_key(path@) ==> res is Ok,
            self.reliable() && !self.files().contains_key(path@) ==> res == Err::<
                Vec<u8>,
                DriverError,
            >(DriverError::ResourceNotFound),
    ;

    /// Whether an object is stored at `path`. An object that does not exist
    /// is no error.
    fn file_exists(&self, path: &str) -> (res: Result<bool, DriverError>)
        ensures
            res matches Ok(found) ==> found == self.files().contains_key(path@),
            self.reliable() ==> res is Ok,
    ;

    /// Stores `content` at `path`, in place of what was there.
    fn write(&mut self, path: &str, content: Vec<u8>) -> (res: Result<(), DriverError>)
        ensures
            final(self).reliable() == old(self).reliable(),
            res is Ok ==> final(self).files() == old(self).files().insert(path@, content@),
            old(self).reliable() ==> res is Ok,
    ;

    /// Removes the object at `path`.
    fn delete(&mut self, path: &str) -> (res: Result<(), DriverError>)
        ensures
            final(self).reliable() == old(self).reliable(),
            res is Ok ==> old(self).files().contains_key(path@) && final(self).files() == old(
                self,
            ).files().remove(path@),
            old(self).reliable() && old(self).files().contains_key(path@) ==> res is Ok,
            old(self).reliable() && !old(self).files().contains_key(path@) ==> res == Err::<
                (),
                DriverError,
            >(DriverError::ResourceNotFound) && final(self).files() == old(self).files(),
    ;

    /// Removes every object that lies in the directory `path`.
    fn delete_directory(&mut self, path: &str) -> (res: Result<(), DriverError>)
        ensures
            final(self).reliable() == old(self).reliable(),
            res is Ok ==> has_object_under(old(self).files(), path@) && final(self).files()
                == without_directory(old(self).files(), path@),
            old(self).reliable() && has_object_under(old(self).files(), path@) ==> res is Ok,
            old(self).reliable() && !has_object_under(old(self).files(), path@) ==> res == Err::<
                (),
                DriverError,
            >(DriverError::ResourceNotFound) && final(self).files() == old(self).files(),
    ;

    /// When the object at `path` was last written.
    fn last_modified(&self, path: &str) -> (res: Result<SystemTime, DriverError>)
        ensures
            res is Ok ==> self.files().contains_key(path@),
            self.reliable() && self.files().contains_key(path@) ==> res is Ok,
            self.reliable() && !self.files().contains_key(path@) ==> res == Err::<
                SystemTime,
                DriverError,
            >(DriverError::ResourceNotFound),
    ;
}

/// Those of the listed paths that lie in the directory `dir`, in the order
/// of the listing.
pub open spec fn paths_under(listed: Seq<String>, dir: Seq<char>) -> Seq<String>
    decreases listed.len(),
{
    if listed.len() == 0 {
        Seq::empty()
    } else if path_starts_with(listed.last()@, dir) {
        paths_under(listed.drop_last(), dir).push(listed.last())
    } else {
        paths_under(listed.drop_last(), dir)
    }
}

/// What an operation answers before it touches an object that has to
/// exist: `ResourceNotFound` where the object was not found.
pub fn must_exist(found: bool) -> (res: Result<(), DriverError>)
    ensures
        res == (if found {
            Ok::<(), DriverError>(())
        } else {
            Err::<(), DriverError>(DriverError::ResourceNotFound)
        }),
{
    if found {
        Ok(())
    } else {
        Err(DriverError::ResourceNotFound)
    }
}

/// Keeps those of the listed paths that lie in the directory `dir`.
pub fn keep_paths_under(listed: &Vec<String>, dir: &str) -> (paths: Vec<String>)
    ensures
        paths@ == paths_under(listed@, dir@),
{
    let mut paths: Vec<String> = Vec::new();
    let mut i: usize = 0;
    while i < listed.len()
        invariant
            i <= listed.len(),
            paths@ == paths_under(listed@.take(i as int), dir@),
        decreases listed.len() - i,
    {
        proof {
            assert(listed@.take(i + 1).drop_last() =~= listed@.take(i as int));
        }
        if starts_with(listed[i].as_str(), dir) {
            paths.push(listed[i].clone());
        }
        i = i + 1;
    }
    proof {
        assert(listed@.take(i as int) =~= listed@);
    }
    paths
}

/// The call with the number `i` is one of those that were answered.
pub open spec fn made<T>(answers: Seq<T>, i: int) -> bool {
    0 <= i < answers.len()
}

/// The paths that a list of paths holds, in its order.
pub open spec fn listed_paths(listed: Seq<String>) -> Seq<Seq<char>> {
    Seq::new(listed.len(), |i: int| listed[i]@)
}

/// `paths_under` keeps exactly the listed paths that lie in the directory.
pub proof fn lemma_paths_under(listed: Seq<String>, dir: Seq<char>)
    ensures
        forall|path: Seq<char>| #[trigger]
            listed_paths(paths_under(listed, dir)).contains(path) ==> listed_paths(
                listed,
            ).contains(path) && path_starts_with(path, dir),
        forall|path: Seq<char>| #[trigger]
            listed_paths(listed).contains(path) && path_starts_with(path, dir) ==> listed_paths(
                paths_under(listed, dir),
            ).contains(path),
    decreases listed.len(),
{
    let kept = paths_under(listed, dir);
    let all = listed_paths(listed);
    let some = listed_paths(kept);
    if listed.len() > 0 {
        let front = listed.drop_last();
        let last = listed.last();
        let rest = paths_under(front, dir);
        let all_front = listed_paths(front);
        let some_front = listed_paths(rest);
        lemma_paths_under(front, dir);
        assert(forall|j: int| 0 <= j < front.len() ==> all_front[j] == all[j]);
        assert(forall|j: int| 0 <= j < rest.len() ==> some_front[j] == some[j]);
        assert forall|path: Seq<char>| some.contains(path) implies all.contains(path)
            && path_starts_with(path, dir) by {
            let i = choose|i: int| 0 <= i < some.len() && some[i] == path;
            if i < rest.len() {
                assert(some_front[i] == path);
                assert(some_front.contains(path));
                assert(all_front.contains(path) && path_starts_with(path, dir));
                let j = choose|j: int| 0 <= j < all_front.len() && all_front[j] == path;
                assert(all[j] == path);
            } else {
                assert(path_starts_with(last@, dir));
                assert(kept[i] == last);
                assert(all[listed.len() - 1] == path);
            }
        }
        assert forall|path: Seq<char>|
            all.contains(path) && path_starts_with(path, dir) implies some.contains(path) by {
            let j = choose|j: int| 0 <= j < all.len() && all[j] == path;
            if j < front.len() {
                assert(all_front[j] == path);
                assert(all_front.contains(path));
                assert(some_front.contains(path));
                let i = choose|i: int| 0 <= i < some_front.len() && some_front[i] == path;
                assert(some[i] == path);
            } else {
                assert(last@ == path);
                assert(some[kept.len() - 1] == path);
            }
        }
    } else {
        assert forall|path: Seq<char>| !some.contains(path) && !all.contains(path) by {}
    }
}

/// The first `i + 1` listed paths are the first `i` and the one at `i`.
pub proof fn lemma_one_more(paths: Seq<String>, i: int)
    requires
        0 <= i < paths.len(),
    ensures
        listed_paths(paths.take(i + 1)).to_set() == listed_paths(paths.take(i)).to_set().insert(
            paths[i]@,
        ),
{
    let upto = listed_paths(paths.take(i + 1));
    let until = listed_paths(paths.take(i));
    assert forall|path: Seq<char>| upto.to_set().contains(path) <==> until.to_set().insert(
        paths[i]@,
    ).contains(path) by {
        if upto.to_set().contains(path) {
            let j = choose|j: int| 0 <= j < upto.len() && upto[j] == path;
            if j < i {
                assert(until[j] == path);
            }
        }
        if until.to_set().contains(path) {
            let j = choose|j: int| 0 <= j < until.len() && until[j] == path;
            assert(upto[j] == path);
        }
        if path == paths[i]@ {
            assert(upto[i] == path);
        }
    }
    assert(upto.to_set() =~= until.to_set().insert(paths[i]@));
}

/// Taking away, one after the other, every object of `files` that lies in
/// the directory `dir` leaves `files` without that directory.
pub proof fn lemma_all_removed(files: Files, paths: Seq<String>, dir: Seq<char>)
    requires
        forall|path: Seq<char>| #[trigger]
            listed_paths(paths).contains(path) ==> path_starts_with(path, dir),
        forall|path: Seq<char>| #[trigger]
            files.contains_key(path) && path_starts_with(path, dir) ==> listed_paths(
                paths,
            ).contains(path),
    ensures
        files.remove_keys(listed_paths(paths).to_set()) == without_directory(files, dir),
{
    assert(files.remove_keys(listed_paths(paths).to_set()) =~= without_directory(files, dir));
}

/// An error of the client of a storage service, which a backend reports in
/// the vocabulary that all backends share.
pub trait ClientError: Sized {
    /// `reported` is what a backend reports for this error.
    spec fn reports(self, reported: DriverError) -> bool;

    /// Reports the error.
    fn report(&self) -> (reported: DriverError)
        ensures
            self.reports(reported),
    ;
}

/// The backend hands on what the client answered: the value that the client
/// gave, or the report of its error.
pub open spec fn handed_on<T, E: ClientError>(
    answer: Result<T, E>,
    res: Result<T, DriverError>,
) -> bool {
    match answer {
        Ok(value) => res == Ok::<T, DriverError>(value),
        Err(error) => res matches Err(reported) && error.reports(reported),
    }
}

/// The backend is done when the client is: it succeeds where the client
/// did, and else reports the client's error.
pub open spec fn done_as<T, E: ClientError>(
    answer: Result<T, E>,
    res: Result<(), DriverError>,
) -> bool {
    match answer {
        Ok(_) => res == Ok::<(), DriverError>(()),
        Err(error) => res matches Err(reported) && error.reports(reported),
    }
}

/// The paths in the directory `dir`, from what the client listed, or the
/// report of the client's error.
pub open spec fn listed_as<E: ClientError>(
    answer: Result<Vec<String>, E>,
    dir: Seq<char>,
    res: Result<Vec<String>, DriverError>,
) -> bool {
    match answer {
        Ok(listed) => res matches Ok(paths) && paths@ == paths_under(listed@, dir),
        Err(error) => res matches Err(reported) && error.reports(reported),
    }
}

/// What deleting the directory `dir` answers to what the client listed.
/// Where the listing failed, its error is reported; where it holds no path
/// in the directory, the answer is `ResourceNotFound`; either way the
/// client is left as it was (`untouched`). Else the listed paths in the
/// directory are removed in turn, and the removing decides.
pub open spec fn cleared_as<E: ClientError>(
    listing: Result<Vec<String>, E>,
    dir: Seq<char>,
    untouched: bool,
    res: Result<(), DriverError>,
) -> bool {
    match listing {
        Err(error) => untouched && (res matches Err(reported) && error.reports(reported)),
        Ok(listed) => if paths_under(listed@, dir).len() == 0 {
            untouched && res == Err::<(), DriverError>(DriverError::ResourceNotFound)
        } else {
            true
        },
    }
}

/// How the paths `paths` were removed in turn, by one call for each, from
/// the first on: `answers` holds what the client answered to each call that
/// was made, and `clients` the client before the first call and after each.
/// Every call but the last succeeded; the last one decides: where it
/// failed, its error is reported, and where it succeeded, every path was
/// removed.
pub open spec fn removed_in_turn<C, T, E: ClientError>(
    paths: Seq<String>,
    clients: Seq<C>,
    answers: Seq<Result<T, E>>,
    before: C,
    after: C,
    res: Result<(), DriverError>,
) -> bool {
    &&& 1 <= answers.len() <= paths.len()
    &&& clients.len() == answers.len() + 1
    &&& clients[0] == before
    &&& clients[answers.len() as int] == after
    &&& forall|i: int| 0 <= i < answers.len() - 1 ==> (#[trigger] answers[i]) is Ok
    &&& done_as(answers[answers.len() - 1], res)
    &&& answers[answers.len() - 1] is Ok ==> answers.len() == paths.len()
}

/// Has the client remove the paths one after the other, by one call of
/// `remover` for each, and stops at the first that the client fails to
/// remove. `held` says what the client holds: a removal that succeeded
/// took the object at its path away.
pub(crate) fn remove_in_turn<C, T, E: ClientError, F: Fn(&mut C, &str, &str) -> Result<T, E>>(
    client: &mut C,
    remover: F,
    holder: &str,
    paths: &Vec<String>,
    Ghost(held): Ghost<spec_fn(C) -> Files>,
) -> (res: Result<(), DriverError>)
    requires
        paths@.len() > 0,
        forall|c: &mut C, p: &str| #[trigger] call_requires(remover, (c, holder, p)),
        forall|c: &mut C, p: &str, answer: Result<T, E>| #[trigger]
            call_ensures(remover, (c, holder, p), answer) && answer is Ok ==> held(*final(c))
                == held(*c).remove(p@),
    ensures
        res is Ok ==> held(*final(client)) == held(*old(client)).remove_keys(
            listed_paths(paths@).to_set(),
        ),
        exists|clients: Seq<C>, answers: Seq<Result<T, E>>|
            {
                &&& #[trigger] removed_in_turn(
                    paths@,
                    clients,
                    answers,
                    *old(client),
                    *final(client),
                    res,
                )
                &&& forall|i: int| #[trigger]
                    made(answers, i) ==> exists|c: &mut C, blob: &str|
                        *c == clients[i] && *final(c) == clients[i + 1] && blob@ == paths@[i]@
                            && #[trigger] call_ensures(remover, (c, holder, blob), answers[i])
            },
{
    let ghost before = held(*client);
    let ghost mut clients: Seq<C> = seq![*client];
    let ghost mut answers: Seq<Result<T, E>> = Seq::empty();
    let mut i: usize = 0;
    proof {
        assert(before.remove_keys(listed_paths(paths@.take(0)).to_set()) =~= before);
    }
    while i < paths.len()
        invariant
            i <= paths.len(),
            paths@.len() > 0,
            forall|c: &mut C, p: &str| #[trigger] call_requires(remover, (c, holder, p)),
            forall|c: &mut C, p: &str, answer: Result<T, E>| #[trigger]
                call_ensures(remover, (c, holder, p), answer) && answer is Ok ==> held(*final(c))
                    == held(*c).remove(p@),
            before == held(*old(client)),
            held(*client) == before.remove_keys(listed_paths(paths@.take(i as int)).to_set()),
            clients.len() == i + 1,
            answers.len() == i,
            clients[0] == *old(client),
            clients[i as int] == *client,
            forall|j: int| 0 <= j < i ==> (#[trigger] answers[j]) is Ok,
            forall|j: int| #[trigger]
                made(answers, j) ==> exists|c: &mut C, blob: &str|
                    *c == clients[j] && *final(c) == clients[j + 1] && blob@ == paths@[j]@
                        && #[trigger] call_ensures(remover, (c, holder, blob), answers[j]),
        decreases paths.len() - i,
    {
        let ghost so_far = listed_paths(paths@.take(i as int)).to_set();
        let ghost earlier = clients;
        let ghost answered = answers;
        let ghost asked = *client;
        let answer = remover(client, holder, paths[i].as_str());
        proof {
            let left = *client;
            assert(exists|c: &mut C, blob: &str|
                *c == asked && *final(c) == left && blob@ == paths@[i as int]@
                    && #[trigger] call_ensures(remover, (c, holder, blob), answer));
            clients = earlier.push(left);
            answers = answered.push(answer);
            assert forall|j: int| #[trigger] made(answers, j) implies exists|
                c: &mut C,
                blob: &str,
            |
                *c == clients[j] && *final(c) == clients[j + 1] && blob@ == paths@[j]@
                    && #[trigger] call_ensures(remover, (c, holder, blob), answers[j]) by {
                if j < i {
                    assert(made(answered, j));
                    assert(answered[j] == answers[j]);
                    assert(earlier[j] == clients[j]);
                    assert(earlier[j + 1] == clients[j + 1]);
                } else {
                    assert(clients[j] == asked);
                    assert(clients[j + 1] == left);
                    assert(answers[j] == answer);
                }
            }
        }
        match answer {
            Ok(_) => {
                proof {
                    lemma_one_more(paths@, i as int);
                    let next = listed_paths(paths@.take(i + 1)).to_set();
                    assert(before.remove_keys(so_far).remove(paths@[i as int]@)
                        =~= before.remove_keys(next));
                    assert forall|j: int| 0 <= j < i + 1 implies (#[trigger] answers[j]) is Ok by {
                        if j < i {
                            assert(answered[j] is Ok);
                        }
                    }
                }
            },
            Err(error) => {
                let reported = error.report();
                proof {
                    assert(answers[i as int] == answer);
                    assert forall|j: int| 0 <= j < i implies (#[trigger] answers[j]) is Ok by {
                        assert(answered[j] is Ok);
                    }
                    assert(removed_in_turn(
                        paths@,
                        clients,
                        answers,
                        *old(client),
                        *client,
                        Err(reported),
                    ));
                }
                return Err(reported);
            },
        }
        i = i + 1;
    }
    proof {
        assert(paths@.take(i as int) =~= paths@);
        assert(removed_in_turn(paths@, clients, answers, *old(client), *client, Ok(())));
    }
    Ok(())
}

} // verus!
