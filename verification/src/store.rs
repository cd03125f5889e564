//! A single storage endpoint: one backend behind the uniform contract.
use crate::contents::Contents;
use crate::drivers::{has_object_under, path_starts_with, without_directory, Driver, Files};
use crate::errors::DriverError;
use std::time::SystemTime;
use vstd::prelude::*;
use vstd::slice::slice_to_vec;
use vstd::utf8::{decode_utf8, valid_utf8};

verus! {

/// One request that changes what a store holds.
pub enum Operation {
    /// Store this content at the path.
    Write(Seq<u8>),
    /// Remove the object at the path.
    Delete,
    /// Remove every object that lies in the directory at the path.
    DeleteDirectory,
}

/// A request as it is handed to a store.
pub enum Request<'a> {
    Write(&'a [u8]),
    Delete,
    DeleteDirectory,
}

impl<'a> View for Request<'a> {
    type V = Operation;

    open spec fn view(&self) -> Operation {
        match *self {
            Request::Write(content) => Operation::Write(content@),
            Request::Delete => Operation::Delete,
            Request::DeleteDirectory => Operation::DeleteDirectory,
        }
    }
}

/// The request took effect: `after` holds what `before` held, changed as
/// the request asks.
pub open spec fn done<D: Driver>(
    op: Operation,
    path: Seq<char>,
    before: Store<D>,
    after: Store<D>,
) -> bool {
    match op {
        Operation::Write(content) => after.files() == before.files().insert(path, content),
        Operation::Delete => before.files().contains_key(path) && after.files()
            == before.files().remove(path),
        Operation::DeleteDirectory => has_object_under(before.files(), path) && after.files()
            == without_directory(before.files(), path),
    }
}

/// The store holds nothing for the request to work on.
pub open spec fn lacking<D: Driver>(op: Operation, path: Seq<char>, before: Store<D>) -> bool {
    match op {
        Operation::Write(_) => false,
        Operation::Delete => !before.files().contains_key(path),
        Operation::DeleteDirectory => !has_object_under(before.files(), path),
    }
}

/// `res` is what the backend behind `driver` answered when it was handed
/// the request: the answer of the one call that the request stands for, on
/// the path and the content as they were given.
pub open spec fn answered<D: Driver>(
    driver: &mut D,
    op: Operation,
    path: &str,
    res: Result<(), DriverError>,
) -> bool {
    match op {
        Operation::Write(content) => exists|handed: Vec<u8>|
            handed@ == content && #[trigger] call_ensures(D::write, (driver, path, handed), res),
        Operation::Delete => call_ensures(D::delete, (driver, path), res),
        Operation::DeleteDirectory => call_ensures(D::delete_directory, (driver, path), res),
    }
}

/// What a text read makes of the backend's answer: the backend's error
/// unchanged, the text that the bytes encode, or `DecodeError` where they
/// are not well-formed UTF-8.
pub open spec fn read_as_text(
    answer: Result<Vec<u8>, DriverError>,
    res: Result<String, DriverError>,
) -> bool {
    match answer {
        Err(error) => res == Err::<String, DriverError>(error),
        Ok(content) => if valid_utf8(content@) {
            res matches Ok(text) && text@ == decode_utf8(content@)
        } else {
            res == Err::<String, DriverError>(DriverError::DecodeError)
        },
    }
}

/// What a read makes of the backend's answer: the backend's error
/// unchanged, the value that was made from the bytes, or `DecodeError`
/// where none could be made.
pub open spec fn read_as<T: TryFrom<Contents>>(
    answer: Result<Vec<u8>, DriverError>,
    res: Result<T, DriverError>,
) -> bool {
    match answer {
        Err(error) => res == Err::<T, DriverError>(error),
        Ok(content) => exists|contents: Contents, made: Result<T, T::Error>|
            contents@ == content@ && #[trigger] call_ensures(T::try_from, (contents,), made)
                && match made {
                Ok(value) => res == Ok::<T, DriverError>(value),
                Err(_) => res == Err::<T, DriverError>(DriverError::DecodeError),
            },
    }
}

/// What reading `path` as text gives on a reliable store that holds
/// `files`: the text that the bytes stored there encode, `DecodeError`
/// where they are not well-formed UTF-8, `ResourceNotFound` where nothing
/// is stored there.
pub open spec fn text_at(files: Files, path: Seq<char>) -> Result<Seq<char>, DriverError> {
    if !files.contains_key(path) {
        Err(DriverError::ResourceNotFound)
    } else if valid_utf8(files[path]) {
        Ok(decode_utf8(files[path]))
    } else {
        Err(DriverError::DecodeError)
    }
}

/// A storage endpoint. It adds nothing to its backend but the two
/// projections of what is read: the raw bytes, and the text they encode.
#[derive(Clone)]
pub struct Store<D: Driver> {
    driver: D,
}

impl<D: Driver> Store<D> {
    /// The objects that the store holds: those of its backend.
    pub closed spec fn files(&self) -> Files {
        self.driver.files()
    }

    /// The backend has no failures of its own.
    pub closed spec fn reliable(&self) -> bool {
        self.driver.reliable()
    }

    /// The backend that the store forwards to.
    pub closed spec fn backend(&self) -> D {
        self.driver
    }

    /// A store on the given backend.
    pub fn new(driver: D) -> (store: Self)
        ensures
            store.backend() == driver,
            store.files() == driver.files(),
            store.reliable() == driver.reliable(),
    {
        Store { driver }
    }

    /// Whether an object is stored at `path`: what the backend answers,
    /// unchanged.
    pub fn file_exists(&self, path: &str) -> (res: Result<bool, DriverError>)
        ensures
            call_ensures(D::file_exists, (&self.backend(), path), res),
            res matches Ok(found) ==> found == self.files().contains_key(path@),
            self.reliable() ==> res is Ok,
    {
        self.driver.file_exists(path)
    }

    /// Stores `content` at `path`, in place of what was there. The answer
    /// is the backend's, unchanged.
    pub fn write(&mut self, path: &str, content: &[u8]) -> (res: Result<(), DriverError>)
        ensures
            exists|driver: &mut D|
                *driver == old(self).backend() && *final(driver) == final(self).backend()
                    && #[trigger] answered(driver, Operation::Write(content@), path, res),
            final(self).reliable() == old(self).reliable(),
            res is Ok ==> final(self).files() == old(self).files().insert(path@, content@),
            old(self).reliable() ==> res is Ok,
    {
        let handed = slice_to_vec(content);
        let res = self.driver.write(path, handed);
        proof {
            let driver = choose|driver: &mut D|
                *driver == old(self).driver && *final(driver) == self.driver
                    && #[trigger] call_ensures(D::write, (driver, path, handed), res);
            assert(answered(driver, Operation::Write(content@), path, res));
        }
        res
    }

    /// The bytes stored at `path`: what the backend answers, unchanged.
    pub fn read_bytes(&self, path: &str) -> (res: Result<Vec<u8>, DriverError>)
        ensures
            call_ensures(D::read, (&self.backend(), path), res),
            res matches Ok(content) ==> self.files().contains_key(path@) && content@
                == self.files()[path@],
            self.reliable() && self.files().contains_key(path@) ==> res is Ok,
            self.reliable() && !self.files().contains_key(path@) ==> res == Err::<
                Vec<u8>,
                DriverError,
            >(DriverError::ResourceNotFound),
    {
        self.driver.read(path)
    }

    /// The text stored at `path`: `DecodeError` where the bytes that the
    /// backend answered are not well-formed UTF-8, and the backend's error,
    /// unchanged, where it answered one.
    pub fn read_text(&self, path: &str) -> (res: Result<String, DriverError>)
        ensures
            exists|answer: Result<Vec<u8>, DriverError>| #[trigger]
                call_ensures(D::read, (&self.backend(), path), answer) && read_as_text(
                    answer,
                    res,
                ),
            res matches Ok(text) ==> self.files().contains_key(path@) && valid_utf8(
                self.files()[path@],
            ) && text@ == decode_utf8(self.files()[path@]),
            self.reliable() && self.files().contains_key(path@) && valid_utf8(self.files()[path@])
                ==> res is Ok,
            self.reliable() && self.files().contains_key(path@) && !valid_utf8(
                self.files()[path@],
            ) ==> res == Err::<String, DriverError>(DriverError::DecodeError),
            self.reliable() && !self.files().contains_key(path@) ==> res == Err::<
                String,
                DriverError,
            >(DriverError::ResourceNotFound),
            self.reliable() ==> match res {
                Ok(text) => text_at(self.files(), path@) == Ok::<Seq<char>, DriverError>(text@),
                Err(error) => text_at(self.files(), path@) == Err::<Seq<char>, DriverError>(error),
            },
    {
        let answer = self.driver.read(path);
        let ghost answered = answer;
        let res = match answer {
            Ok(content) => match Contents::new(content).into_text() {
                Some(text) => Ok(text),
                None => Err(DriverError::DecodeError),
            },
            Err(e) => Err(e),
        };
        proof {
            assert(call_ensures(D::read, (&self.backend(), path), answered));
            assert(read_as_text(answered, res));
        }
        res
    }

    /// What is stored at `path`, as a `T` made from its bytes: `DecodeError`
    /// where no `T` can be made from the bytes that the backend answered,
    /// and the backend's error, unchanged, where it answered one.
    pub fn read<T: TryFrom<Contents>>(&self, path: &str) -> (res: Result<T, DriverError>)
        ensures
            exists|answer: Result<Vec<u8>, DriverError>| #[trigger]
                call_ensures(D::read, (&self.backend(), path), answer) && read_as(answer, res),
            res matches Ok(value) ==> self.files().contains_key(path@) && exists|
                contents: Contents,
                made: Result<T, T::Error>,
            |
                contents@ == self.files()[path@] && #[trigger] call_ensures(
                    T::try_from,
                    (contents,),
                    made,
                ) && made == Ok::<T, T::Error>(value),
            self.reliable() && !self.files().contains_key(path@) ==> res == Err::<
                T,
                DriverError,
            >(DriverError::ResourceNotFound),
            self.reliable() && self.files().contains_key(path@) ==> res is Ok || (res == Err::<
                T,
                DriverError,
            >(DriverError::DecodeError) && exists|contents: Contents, made: Result<T, T::Error>|
                contents@ == self.files()[path@] && #[trigger] call_ensures(
                    T::try_from,
                    (contents,),
                    made,
                ) && made is Err),
    {
        let answer = self.driver.read(path);
        let ghost answered = answer;
        let res = match answer {
            Ok(content) => {
                let contents = Contents::new(content);
                let made = T::try_from(contents);
                proof {
                    assert(call_ensures(T::try_from, (contents,), made));
                }
                match made {
                    Ok(value) => Ok(value),
                    Err(_) => Err(DriverError::DecodeError),
                }
            },
            Err(e) => Err(e),
        };
        proof {
            assert(call_ensures(D::read, (&self.backend(), path), answered));
            assert(read_as(answered, res));
        }
        res
    }

    /// Removes the object at `path`. The answer is the backend's,
    /// unchanged.
    pub fn delete(&mut self, path: &str) -> (res: Result<(), DriverError>)
        ensures
            exists|driver: &mut D|
                *driver == old(self).backend() && *final(driver) == final(self).backend()
                    && #[trigger] answered(driver, Operation::Delete, path, res),
            final(self).reliable() == old(self).reliable(),
            res is Ok ==> old(self).files().contains_key(path@) && final(self).files() == old(
                self,
            ).files().remove(path@),
            old(self).reliable() && old(self).files().contains_key(path@) ==> res is Ok,
            old(self).reliable() && !old(self).files().contains_key(path@) ==> res == Err::<
                (),
                DriverError,
            >(DriverError::ResourceNotFound) && final(self).files() == old(self).files(),
    {
        let res = self.driver.delete(path);
        proof {
            let driver = choose|driver: &mut D|
                *driver == old(self).driver && *final(driver) == self.driver
                    && #[trigger] call_ensures(D::delete, (driver, path), res);
            assert(answered(driver, Operation::Delete, path, res));
        }
        res
    }

    /// Removes every object that lies in the directory `path`. The answer
    /// is the backend's, unchanged.
    pub fn delete_directory(&mut self, path: &str) -> (res: Result<(), DriverError>)
        ensures
            exists|driver: &mut D|
                *driver == old(self).backend() && *final(driver) == final(self).backend()
                    && #[trigger] answered(driver, Operation::DeleteDirectory, path, res),
            final(self).reliable() == old(self).reliable(),
            res is Ok ==> has_object_under(old(self).files(), path@) && final(self).files()
                == without_directory(old(self).files(), path@),
            old(self).reliable() && has_object_under(old(self).files(), path@) ==> res is Ok,
            old(self).reliable() && !has_object_under(old(self).files(), path@) ==> res == Err::<
                (),
                DriverError,
            >(DriverError::ResourceNotFound) && final(self).files() == old(self).files(),
    {
        let res = self.driver.delete_directory(path);
        proof {
            let driver = choose|driver: &mut D|
                *driver == old(self).driver && *final(driver) == self.driver
                    && #[trigger] call_ensures(D::delete_directory, (driver, path), res);
            assert(answered(driver, Operation::DeleteDirectory, path, res));
        }
        res
    }

    /// Carries out one request, and answers what the backend answered to
    /// it. A request that succeeded took effect; on a reliable store it
    /// succeeds unless the store holds nothing for it to work on, and then
    /// fails with `ResourceNotFound` and changes nothing.
    pub fn apply(&mut self, request: &Request, path: &str) -> (res: Result<(), DriverError>)
        ensures
            exists|driver: &mut D|
                *driver == old(self).backend() && *final(driver) == final(self).backend()
                    && #[trigger] answered(driver, request@, path, res),
            final(self).reliable() == old(self).reliable(),
            res is Ok ==> done(request@, path@, *old(self), *final(self)),
            old(self).reliable() && !lacking(request@, path@, *old(self)) ==> res is Ok,
            old(self).reliable() && lacking(request@, path@, *old(self)) ==> res == Err::<
                (),
                DriverError,
            >(DriverError::ResourceNotFound) && final(self).files() == old(self).files(),
    {
        let res = match request {
            Request::Write(content) => self.write(path, content),
            Request::Delete => self.delete(path),
            Request::DeleteDirectory => self.delete_directory(path),
        };
        proof {
            let driver = choose|driver: &mut D|
                *driver == old(self).backend() && *final(driver) == self.backend()
                    && #[trigger] answered(driver, request@, path, res);
            assert(answered(driver, request@, path, res));
        }
        res
    }

    /// When the object at `path` was last written: what the backend
    /// answers, unchanged.
    pub fn last_modified(&self, path: &str) -> (res: Result<SystemTime, DriverError>)
        ensures
            call_ensures(D::last_modified, (&self.backend(), path), res),
            res is Ok ==> self.files().contains_key(path@),
            self.reliable() && self.files().contains_key(path@) ==> res is Ok,
            self.reliable() && !self.files().contains_key(path@) ==> res == Err::<
                SystemTime,
                DriverError,
            >(DriverError::ResourceNotFound),
    {
        self.driver.last_modified(path)
    }
}

/// Writing the same content to the same path a second time changes
/// nothing: after either write the object exists and holds the content.
pub proof fn lemma_write_is_idempotent<D: Driver>(
    first: Store<D>,
    second: Store<D>,
    third: Store<D>,
    path: Seq<char>,
    content: Seq<u8>,
)
    requires
        done(Operation::Write(content), path, first, second),
        done(Operation::Write(content), path, second, third),
    ensures
        second.files().contains_key(path),
        second.files()[path] == content,
        third.files() == second.files(),
{
    assert(third.files() =~= second.files());
}

/// Deleting a directory removes the objects that lie in it and no others:
/// an object is left exactly when it was there and lies outside, and it
/// holds what it held.
pub proof fn lemma_delete_directory_is_by_prefix<D: Driver>(
    before: Store<D>,
    after: Store<D>,
    dir: Seq<char>,
    path: Seq<char>,
)
    requires
        done(Operation::DeleteDirectory, dir, before, after),
    ensures
        after.files().contains_key(path) <==> before.files().contains_key(path)
            && !path_starts_with(path, dir),
        after.files().contains_key(path) ==> after.files()[path] == before.files()[path],
{
}

/// What was written is what is read: the text that the content encodes
/// where it is well-formed UTF-8, and `DecodeError` where it is not.
pub proof fn lemma_round_trip<D: Driver>(
    before: Store<D>,
    after: Store<D>,
    path: Seq<char>,
    content: Seq<u8>,
)
    requires
        done(Operation::Write(content), path, before, after),
    ensures
        after.files().contains_key(path),
        after.files()[path] == content,
        text_at(after.files(), path) == (if valid_utf8(content) {
            Ok::<Seq<char>, DriverError>(decode_utf8(content))
        } else {
            Err::<Seq<char>, DriverError>(DriverError::DecodeError)
        }),
{
}

} // verus!
