//! How the failures of a Google-Cloud-like storage service are reported.
use crate::drivers::{
    cleared_as, done_as, handed_on, keep_paths_under, lemma_all_removed, lemma_paths_under,
    listed_as, listed_paths, made, path_starts_with, paths_under, remove_in_turn, removed_in_turn,
    system_time_at, time_at_offset, ClientError, Driver, Files,
};
use crate::errors::DriverError;
use google_cloud_storage::http::objects::Object;
use google_cloud_storage::http::Error;
use std::time::SystemTime;
use vstd::prelude::*;
use vstd::string::StringExecFns;

verus! {

/// `google_cloud_storage::http::Error`: what a call on the service fails
/// with.
#[verifier::external_type_specification]
#[verifier::external_body]
pub struct ExError(Error);

/// `Object` of google_cloud_storage: what the service tells of one object.
#[verifier::external_type_specification]
#[verifier::external_body]
pub struct ExObject(Object);

/// Tells the variants of google_cloud_storage's `http::Error` apart: an
/// answer of the service with its `code` and message, a failure of the
/// HTTP client with what `is_connect` and `is_timeout` of reqwest say of it,
/// a failure of a middleware, and a failure of the token source.
#[verifier::external_body]
fn gcp_failure(error: &Error) -> GcpFailure {
    match error {
        Error::Response(e) => GcpFailure::Response(e.code, e.to_string()),
        Error::HttpClient(e) => GcpFailure::HttpClient(e.is_connect(), e.is_timeout(), e.to_string()),
        Error::HttpMiddleware(e) => GcpFailure::Other(e.to_string()),
        Error::TokenSource(_) => GcpFailure::TokenSource,
    }
}

/// Takes the two times out of google_cloud_storage's `Object`: `updated`
/// and `time_created`, each as the count of nanoseconds from the Unix epoch
/// that `unix_timestamp_nanos` of the time crate gives for it.
#[verifier::external_body]
fn object_times(object: &Object) -> (Option<i128>, Option<i128>) {
    (
        object.updated.map(|at| at.unix_timestamp_nanos()),
        object.time_created.map(|at| at.unix_timestamp_nanos()),
    )
}

/// What the library reads of a failed call.
pub enum GcpFailure {
    /// The service answered with an error: its status code and message.
    Response(u16, String),
    /// The HTTP client failed: whether it could not connect, whether it
    /// timed out, and its description.
    HttpClient(bool, bool, String),
    /// No access token could be had.
    TokenSource,
    /// Any other failure, with its description.
    Other(String),
}

/// The error that stands for a failed call.
pub open spec fn gcp_error(failure: GcpFailure) -> DriverError {
    match failure {
        GcpFailure::Response(code, detail) => if code == 404 {
            DriverError::ResourceNotFound
        } else {
            DriverError::Any(detail)
        },
        GcpFailure::HttpClient(connect, timeout, detail) => if connect || timeout {
            DriverError::Network()
        } else {
            DriverError::Any(detail)
        },
        GcpFailure::TokenSource => DriverError::AuthenticationFailed,
        GcpFailure::Other(detail) => DriverError::Any(detail),
    }
}

/// Reports a failed call: a status 404 as `ResourceNotFound`, a client that
/// could not connect or timed out as `Network`, a missing token as
/// `AuthenticationFailed`, anything else with its description.
pub fn from_gcp_failure(failure: GcpFailure) -> (error: DriverError)
    ensures
        error == gcp_error(failure),
{
    match failure {
        GcpFailure::Response(code, detail) => {
            if code == 404 {
                DriverError::ResourceNotFound
            } else {
                DriverError::Any(detail)
            }
        },
        GcpFailure::HttpClient(connect, timeout, detail) => {
            if connect || timeout {
                DriverError::Network()
            } else {
                DriverError::Any(detail)
            }
        },
        GcpFailure::TokenSource => DriverError::AuthenticationFailed,
        GcpFailure::Other(detail) => DriverError::Any(detail),
    }
}

/// `failure` is what is read of the error `error`: which of its variants
/// it is, with the status code, what the HTTP client says of it, and its
/// description.
pub closed spec fn read_of_error(error: Error, failure: GcpFailure) -> bool {
    call_ensures(gcp_failure, (&error,), failure)
}

/// How an error of the storage service's client is reported: by what is
/// read of it.
impl ClientError for Error {
    /// The error that stands for what is read of this error.
    open spec fn reports(self, reported: DriverError) -> bool {
        exists|failure: GcpFailure| #[trigger]
            read_of_error(self, failure) && reported == gcp_error(failure)
    }

    /// Reads the error and reports what stands for it.
    fn report(&self) -> (reported: DriverError) {
        let failure = gcp_failure(self);
        assert(read_of_error(*self, failure));
        from_gcp_failure(failure)
    }
}

/// `updated` and `created` are the two times that are read of `object`,
/// in nanoseconds from the Unix epoch.
pub closed spec fn times_of(object: Object, updated: Option<i128>, created: Option<i128>) -> bool {
    call_ensures(object_times, (&object,), (updated, created))
}

/// The time of the last change of an object: when it was updated, or else
/// when it was created.
pub open spec fn changed_at<T>(updated: Option<T>, created: Option<T>) -> Option<T> {
    match updated {
        Some(at) => Some(at),
        None => created,
    }
}

/// What is answered for the two times of an object: the time of its last
/// change, an error where it has neither time, and an error where the time
/// is one that a `SystemTime` cannot hold.
pub open spec fn time_from(
    updated: Option<i128>,
    created: Option<i128>,
    res: Result<SystemTime, DriverError>,
) -> bool {
    match changed_at(updated, created) {
        Some(nanos) => exists|time: Option<SystemTime>| #[trigger]
            time_at_offset(nanos as int, time) && match time {
                Some(at) => res == Ok::<SystemTime, DriverError>(at),
                None => res matches Err(DriverError::Any(detail)) && detail@
                    == "last modify is out of range"@,
            },
        None => res matches Err(DriverError::Any(detail)) && detail@
            == "last modify is missing"@,
    }
}

/// The time of the last change, from the times that are read of what the
/// client told of the object, or the report of the client's error.
pub open spec fn dated_as(answer: Result<Object, Error>, res: Result<SystemTime, DriverError>) -> bool {
    match answer {
        Ok(object) => exists|updated: Option<i128>, created: Option<i128>| #[trigger]
            times_of(object, updated, created) && time_from(updated, created, res),
        Err(error) => res matches Err(reported) && error.reports(reported),
    }
}

/// Reports an error of the service: the error that stands for what is read
/// of it, which is `ResourceNotFound`, `Network`, `AuthenticationFailed`,
/// or `Any` with a description.
pub fn from_http_error(error: Error) -> (reported: DriverError)
    ensures
        error.reports(reported),
        !(reported is InvalidPath) && !(reported is DecodeError),
{
    let failure = gcp_failure(&error);
    assert(read_of_error(error, failure));
    from_gcp_failure(failure)
}

/// A status 404 says that the object does not exist.
pub open spec fn says_missing(failure: GcpFailure) -> bool {
    failure matches GcpFailure::Response(code, _) && code == 404
}

/// Whether the failure says that the object does not exist.
pub fn is_missing(failure: &GcpFailure) -> (missing: bool)
    ensures
        missing == says_missing(*failure),
{
    match failure {
        GcpFailure::Response(code, _) => *code == 404,
        _ => false,
    }
}

/// Whether the object exists, from the answer to a request for its
/// details: an answer says that it does, a status 404 that it does not,
/// and any other failure is handed on.
pub fn exists_from_details(answer: Result<Object, Error>) -> (res: Result<bool, Error>)
    ensures
        match answer {
            Ok(_) => res == Ok::<bool, Error>(true),
            Err(error) => exists|failure: GcpFailure| #[trigger]
                read_of_error(error, failure) && res == (if says_missing(failure) {
                    Ok::<bool, Error>(false)
                } else {
                    Err::<bool, Error>(error)
                }),
        },
{
    match answer {
        Ok(_) => Ok(true),
        Err(error) => {
            let failure = gcp_failure(&error);
            proof {
                assert(read_of_error(error, failure));
            }
            if is_missing(&failure) {
                Ok(false)
            } else {
                Err(error)
            }
        },
    }
}

/// The path under which a listed object is known: its bucket, a slash, and
/// its name.
pub fn object_path(bucket: &str, name: &str) -> (path: String)
    ensures
        path@ == bucket@ + "/"@ + name@,
{
    let mut path = bucket.to_string();
    path.append("/");
    path.append(name);
    path
}

/// The time of the last change of an object: when it was updated, or else
/// when it was created.
pub fn last_change<T>(updated: Option<T>, created: Option<T>) -> (time: Option<T>)
    ensures
        time == changed_at(updated, created),
{
    match updated {
        Some(at) => Some(at),
        None => created,
    }
}

/// The calls that the backend makes on the storage service. An
/// implementation says what each bucket holds, and answers each call from
/// it: a call that succeeded did what it was asked to.
pub trait ClientBuilderTrait {
    /// The objects of a bucket: the content stored under each path. A
    /// client says what they are.
    closed spec fn objects(&self, bucket: Seq<char>) -> Files {
        arbitrary()
    }

    /// The content of the object at `path`.
    fn download_object(&self, bucket: &str, path: &str) -> (res: Result<Vec<u8>, Error>)
        ensures
            res matches Ok(content) ==> self.objects(bucket@).contains_key(path@) && content@
                == self.objects(bucket@)[path@],
    ;

    /// What the service tells of the object at `path`: among it the time
    /// of its creation or of its last update.
    fn get_object_details(&self, bucket: &str, path: &str) -> (res: Result<Object, Error>)
        ensures
            res is Ok ==> self.objects(bucket@).contains_key(path@),
    ;

    /// Whether there is an object at `path`.
    fn object_exists(&self, bucket: &str, path: &str) -> (res: Result<bool, Error>)
        ensures
            res matches Ok(found) ==> found == self.objects(bucket@).contains_key(path@),
    ;

    /// Stores `content` as the object at `path`.
    fn upload_objects(&mut self, bucket: &str, path: &str, content: Vec<u8>) -> (res: Result<
        Object,
        Error,
    >)
        ensures
            res is Ok ==> final(self).objects(bucket@) == old(self).objects(bucket@).insert(
                path@,
                content@,
            ),
    ;

    /// Removes the object at `path`.
    fn delete_objects(&mut self, bucket: &str, path: &str) -> (res: Result<(), Error>)
        ensures
            res is Ok ==> old(self).objects(bucket@).contains_key(path@) && final(self).objects(
                bucket@,
            ) == old(self).objects(bucket@).remove(path@),
    ;

    /// Paths of objects of the bucket, among them every one that lies in
    /// the directory `path`.
    fn list_objects(&self, bucket: &str, path: &str) -> (res: Result<Vec<String>, Error>)
        ensures
            res matches Ok(paths) ==> {
                &&& forall|listed: Seq<char>| #[trigger]
                    listed_paths(paths@).contains(listed) ==> self.objects(bucket@).contains_key(
                        listed,
                    )
                &&& forall|listed: Seq<char>| #[trigger]
                    self.objects(bucket@).contains_key(listed) && path_starts_with(listed, path@)
                        ==> listed_paths(paths@).contains(listed)
            },
    ;
}

/// A backend on one bucket of a storage service.
#[derive(Clone)]
pub struct GoogleCloudStorage<C: ClientBuilderTrait> {
    client: C,
    bucket: String,
}

impl<C: ClientBuilderTrait> GoogleCloudStorage<C> {
    /// A backend on the bucket `bucket`, reached through `client`.
    pub fn with_client(bucket: &str, client: C) -> (driver: Self)
        ensures
            driver.client() == client,
            driver.bucket_name() == bucket@,
            driver.files() == client.objects(bucket@),
            !driver.reliable(),
    {
        GoogleCloudStorage { client, bucket: bucket.to_string() }
    }

    /// The client through which the service is reached.
    pub closed spec fn client(&self) -> C {
        self.client
    }

    /// The name of the bucket.
    pub closed spec fn bucket_name(&self) -> Seq<char> {
        self.bucket@
    }

    /// The paths of the objects that lie in the directory `dir`: those of
    /// the paths that the client lists for the directory.
    fn get_all_files_in_path(&self, dir: &str) -> (res: Result<Vec<String>, DriverError>)
        ensures
            exists|bucket: &str, answer: Result<Vec<String>, Error>|
                bucket@ == self.bucket_name() && #[trigger] call_ensures(
                    C::list_objects,
                    (&self.client(), bucket, dir),
                    answer,
                ) && listed_as(answer, dir@, res),
            res matches Ok(paths) ==> {
                &&& forall|path: Seq<char>| #[trigger]
                    listed_paths(paths@).contains(path) ==> self.files().contains_key(path)
                        && path_starts_with(path, dir@)
                &&& forall|path: Seq<char>| #[trigger]
                    self.files().contains_key(path) && path_starts_with(path, dir@)
                        ==> listed_paths(paths@).contains(path)
            },
    {
        let bucket = self.bucket.as_str();
        let answer = self.client.list_objects(bucket, dir);
        let ghost answered = answer;
        let res = match answer {
            Ok(listed) => {
                let paths = keep_paths_under(&listed, dir);
                proof {
                    lemma_paths_under(listed@, dir@);
                }
                Ok(paths)
            },
            Err(error) => Err(from_http_error(error)),
        };
        proof {
            assert(call_ensures(C::list_objects, (&self.client(), bucket, dir), answered));
            assert(listed_as(answered, dir@, res));
        }
        res
    }
}

impl<C: ClientBuilderTrait> Driver for GoogleCloudStorage<C> {
    closed spec fn files(&self) -> Files {
        self.client.objects(self.bucket@)
    }

    open spec fn reliable(&self) -> bool {
        false
    }

    /// Asks the client for the content of the object, and hands on what it
    /// answered.
    fn read(&self, path: &str) -> (res: Result<Vec<u8>, DriverError>)
        ensures
            exists|bucket: &str, answer: Result<Vec<u8>, Error>|
                bucket@ == self.bucket_name() && #[trigger] call_ensures(
                    C::download_object,
                    (&self.client(), bucket, path),
                    answer,
                ) && handed_on(answer, res),
    {
        let bucket = self.bucket.as_str();
        let answer = self.client.download_object(bucket, path);
        let ghost answered = answer;
        let res = match answer {
            Ok(content) => Ok(content),
            Err(error) => Err(from_http_error(error)),
        };
        proof {
            assert(call_ensures(C::download_object, (&self.client(), bucket, path), answered));
            assert(handed_on(answered, res));
        }
        res
    }

    /// Asks the client whether the object exists, and hands on what it
    /// answered.
    fn file_exists(&self, path: &str) -> (res: Result<bool, DriverError>)
        ensures
            exists|bucket: &str, answer: Result<bool, Error>|
                bucket@ == self.bucket_name() && #[trigger] call_ensures(
                    C::object_exists,
                    (&self.client(), bucket, path),
                    answer,
                ) && handed_on(answer, res),
    {
        let bucket = self.bucket.as_str();
        let answer = self.client.object_exists(bucket, path);
        let ghost answered = answer;
        let res = match answer {
            Ok(found) => Ok(found),
            Err(error) => Err(from_http_error(error)),
        };
        proof {
            assert(call_ensures(C::object_exists, (&self.client(), bucket, path), answered));
            assert(handed_on(answered, res));
        }
        res
    }

    /// Has the client store the content as the object, and is done as the
    /// client is. The client is what that one call left of it.
    fn write(&mut self, path: &str, content: Vec<u8>) -> (res: Result<(), DriverError>)
        ensures
            final(self).bucket_name() == old(self).bucket_name(),
            exists|client: &mut C, bucket: &str, answer: Result<Object, Error>|
                *client == old(self).client() && *final(client) == final(self).client()
                    && bucket@ == old(self).bucket_name() && #[trigger] call_ensures(
                    C::upload_objects,
                    (client, bucket, path, content),
                    answer,
                ) && done_as(answer, res),
    {
        let answer = self.client.upload_objects(self.bucket.as_str(), path, content);
        let ghost answered = answer;
        let res = match answer {
            Ok(_) => Ok(()),
            Err(error) => Err(from_http_error(error)),
        };
        proof {
            assert(done_as(answered, res));
        }
        res
    }

    /// Has the client remove the object, and is done as the client is. The
    /// client is what that one call left of it.
    fn delete(&mut self, path: &str) -> (res: Result<(), DriverError>)
        ensures
            final(self).bucket_name() == old(self).bucket_name(),
            exists|client: &mut C, bucket: &str, answer: Result<(), Error>|
                *client == old(self).client() && *final(client) == final(self).client()
                    && bucket@ == old(self).bucket_name() && #[trigger] call_ensures(
                    C::delete_objects,
                    (client, bucket, path),
                    answer,
                ) && done_as(answer, res),
    {
        let answer = self.client.delete_objects(self.bucket.as_str(), path);
        let ghost answered = answer;
        let res = match answer {
            Ok(_) => Ok(()),
            Err(error) => Err(from_http_error(error)),
        };
        proof {
            assert(done_as(answered, res));
        }
        res
    }

    /// Asks the client for the paths of the directory, and has it remove,
    /// one after the other, those that lie in it; it stops at the first
    /// that the client fails to remove.
    fn delete_directory(&mut self, path: &str) -> (res: Result<(), DriverError>)
        ensures
            final(self).bucket_name() == old(self).bucket_name(),
            exists|bucket: &str, listing: Result<Vec<String>, Error>|
                {
                    &&& bucket@ == old(self).bucket_name()
                    &&& #[trigger] call_ensures(
                        C::list_objects,
                        (&old(self).client(), bucket, path),
                        listing,
                    )
                    &&& cleared_as(
                        listing,
                        path@,
                        final(self).client() == old(self).client(),
                        res,
                    )
                    &&& match listing {
                        Ok(listed) => paths_under(listed@, path@).len() > 0 ==> exists|
                            clients: Seq<C>,
                            answers: Seq<Result<(), Error>>,
                        |
                            {
                                &&& #[trigger] removed_in_turn(
                                    paths_under(listed@, path@),
                                    clients,
                                    answers,
                                    old(self).client(),
                                    final(self).client(),
                                    res,
                                )
                                &&& forall|i: int| #[trigger]
                                    made(answers, i) ==> exists|
                                        client: &mut C,
                                        holder: &str,
                                        blob: &str,
                                    |
                                        *client == clients[i] && *final(client) == clients[i + 1]
                                            && holder@ == old(self).bucket_name() && blob@
                                            == paths_under(listed@, path@)[i]@
                                            && #[trigger] call_ensures(
                                            C::delete_objects,
                                            (client, holder, blob),
                                            answers[i],
                                        )
                            },
                        Err(_) => true,
                    }
                },
    {
        let found = self.get_all_files_in_path(path);
        let ghost (bucket, listing) = choose|
            bucket: &str,
            listing: Result<Vec<String>, Error>,
        |
            bucket@ == self.bucket_name() && #[trigger] call_ensures(
                C::list_objects,
                (&self.client(), bucket, path),
                listing,
            ) && listed_as(listing, path@, found);
        let paths = match found {
            Ok(paths) => paths,
            Err(error) => {
                proof {
                    assert(cleared_as(listing, path@, true, Err(error)));
                }
                return Err(error);
            },
        };
        if paths.len() == 0 {
            proof {
                assert(cleared_as(listing, path@, true, Err(DriverError::ResourceNotFound)));
            }
            return Err(DriverError::ResourceNotFound);
        }
        let ghost before = self.files();
        let ghost name = self.bucket@;
        proof {
            assert(listed_paths(paths@)[0] == paths@[0]@);
            assert(listed_paths(paths@).contains(paths@[0]@));
        }
        let holder = self.bucket.as_str();
        let res = remove_in_turn(
            &mut self.client,
            C::delete_objects,
            holder,
            &paths,
            Ghost(|client: C| client.objects(name)),
        );
        proof {
            let (clients, answers) = choose|clients: Seq<C>, answers: Seq<Result<(), Error>>|
                {
                    &&& #[trigger] removed_in_turn(
                        paths@,
                        clients,
                        answers,
                        old(self).client(),
                        self.client(),
                        res,
                    )
                    &&& forall|i: int| #[trigger]
                        made(answers, i) ==> exists|client: &mut C, blob: &str|
                            *client == clients[i] && *final(client) == clients[i + 1] && blob@
                                == paths@[i]@ && #[trigger] call_ensures(
                                C::delete_objects,
                                (client, holder, blob),
                                answers[i],
                            )
                };
            assert forall|i: int| #[trigger] made(answers, i) implies exists|
                client: &mut C,
                holder: &str,
                blob: &str,
            |
                *client == clients[i] && *final(client) == clients[i + 1] && holder@ == old(
                    self,
                ).bucket_name() && blob@ == paths@[i]@ && #[trigger] call_ensures(
                    C::delete_objects,
                    (client, holder, blob),
                    answers[i],
                ) by {
                let (client, blob) = choose|client: &mut C, blob: &str|
                    *client == clients[i] && *final(client) == clients[i + 1] && blob@
                        == paths@[i]@ && #[trigger] call_ensures(
                        C::delete_objects,
                        (client, holder, blob),
                        answers[i],
                    );
                assert(call_ensures(C::delete_objects, (client, holder, blob), answers[i]));
            }
            if res is Ok {
                lemma_all_removed(before, paths@, path@);
            }
            assert(cleared_as(listing, path@, false, res));
        }
        res
    }

    /// Asks the client what it knows of the object, and answers with the
    /// time of its last change that is read of it.
    fn last_modified(&self, path: &str) -> (res: Result<SystemTime, DriverError>)
        ensures
            exists|bucket: &str, answer: Result<Object, Error>|
                bucket@ == self.bucket_name() && #[trigger] call_ensures(
                    C::get_object_details,
                    (&self.client(), bucket, path),
                    answer,
                ) && dated_as(answer, res),
    {
        let bucket = self.bucket.as_str();
        let answer = self.client.get_object_details(bucket, path);
        let ghost answered = answer;
        let res = match answer {
            Ok(object) => {
                let (updated, created) = object_times(&object);
                proof {
                    assert(times_of(object, updated, created));
                }
                match last_change(updated, created) {
                    Some(nanos) => match system_time_at(nanos) {
                        Some(time) => Ok(time),
                        None => Err(DriverError::Any("last modify is out of range".to_string())),
                    },
                    None => Err(DriverError::Any("last modify is missing".to_string())),
                }
            },
            Err(error) => Err(from_http_error(error)),
        };
        proof {
            assert(call_ensures(C::get_object_details, (&self.client(), bucket, path), answered));
            assert(dated_as(answered, res));
        }
        res
    }
}

} // verus!
