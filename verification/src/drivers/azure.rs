//! How the failures of an Azure-like blob service are reported.
use crate::drivers::{
    cleared_as, done_as, handed_on, keep_paths_under, lemma_all_removed, lemma_paths_under,
    listed_as, listed_paths, made, path_starts_with, paths_under, remove_in_turn, removed_in_turn,
    ClientError, Driver, Files,
};
use crate::errors::DriverError;
use azure_core::error::{Error, ErrorKind};
use azure_storage_blobs::blob::operations::DeleteBlobResponse;
use std::time::SystemTime;
use vstd::prelude::*;

verus! {

/// `azure_core::error::Error`: what a call on the service fails with.
#[verifier::external_type_specification]
#[verifier::external_body]
pub struct ExError(Error);

/// `azure_core::error::ErrorKind`: the kind of such an error.
#[verifier::external_type_specification]
#[verifier::external_body]
pub struct ExErrorKind(ErrorKind);

/// `DeleteBlobResponse` of azure_storage_blobs: what the service answers
/// when a blob was deleted. Nothing is read of it.
#[verifier::external_type_specification]
#[verifier::external_body]
pub struct ExDeleteBlobResponse(DeleteBlobResponse);

/// `Error::kind` of azure_core: the kind of an error of the service.
#[verifier::external_body]
fn kind_of(error: &Error) -> &ErrorKind {
    error.kind()
}

/// Tells the kinds of azure_core's `ErrorKind` apart: an answer of the
/// service with its error code, a failure of the credentials, and the
/// others, each with the kind's own description.
#[verifier::external_body]
fn azure_failure(kind: &ErrorKind) -> AzureFailure {
    match kind {
        ErrorKind::HttpResponse { status: _, error_code } => {
            AzureFailure::HttpResponse(error_code.clone(), kind.to_string())
        },
        ErrorKind::Credential => AzureFailure::Credential,
        other => AzureFailure::Other(other.to_string()),
    }
}

/// What the library reads of a failed call.
pub enum AzureFailure {
    /// The service answered with an error: its error code, if it gave one,
    /// and the description of the failure.
    HttpResponse(Option<String>, String),
    /// The credentials could not be used.
    Credential,
    /// Any other failure, with its description.
    Other(String),
}

/// The error that stands for a failed call.
pub open spec fn azure_error(failure: AzureFailure) -> DriverError {
    match failure {
        AzureFailure::HttpResponse(Some(code), detail) => if code@ == "ContainerNotFound"@
            || code@ == "BlobNotFound"@ {
            DriverError::ResourceNotFound
        } else if code@ == "AuthenticationFailed"@ {
            DriverError::AuthenticationFailed
        } else {
            DriverError::Any(detail)
        },
        AzureFailure::HttpResponse(None, detail) => DriverError::Any(detail),
        AzureFailure::Credential => DriverError::AuthenticationFailed,
        AzureFailure::Other(detail) => DriverError::Any(detail),
    }
}

/// Reports a failed call: a container or blob that is not found as
/// `ResourceNotFound`, refused or unusable credentials as
/// `AuthenticationFailed`, anything else with its description.
pub fn from_azure_failure(failure: AzureFailure) -> (error: DriverError)
    ensures
        error == azure_error(failure),
{
    match failure {
        AzureFailure::HttpResponse(Some(code), detail) => {
            if code == "ContainerNotFound".to_string() || code == "BlobNotFound".to_string() {
                DriverError::ResourceNotFound
            } else if code == "AuthenticationFailed".to_string() {
                DriverError::AuthenticationFailed
            } else {
                DriverError::Any(detail)
            }
        },
        AzureFailure::HttpResponse(None, detail) => DriverError::Any(detail),
        AzureFailure::Credential => DriverError::AuthenticationFailed,
        AzureFailure::Other(detail) => DriverError::Any(detail),
    }
}

/// `failure` is what is read of the kind `kind`: which of the kinds it
/// is, with its error code and its description.
pub closed spec fn read_of_kind(kind: &ErrorKind, failure: AzureFailure) -> bool {
    call_ensures(azure_failure, (kind,), failure)
}

/// How an error of the blob service's client is reported: by its kind.
impl ClientError for Error {
    /// The error that stands for what is read of the kind of this error.
    closed spec fn reports(self, reported: DriverError) -> bool {
        exists|kind: &ErrorKind, failure: AzureFailure|
            #[trigger] call_ensures(kind_of, (&self,), kind) && #[trigger] read_of_kind(
                kind,
                failure,
            ) && reported == azure_error(failure)
    }

    /// Reads the error and reports what stands for it.
    fn report(&self) -> (reported: DriverError) {
        let kind = kind_of(self);
        let reported = from_error_kind(kind);
        proof {
            let failure = choose|failure: AzureFailure| #[trigger]
                read_of_kind(kind, failure) && reported == azure_error(failure);
            assert(call_ensures(kind_of, (self,), kind));
            assert(read_of_kind(kind, failure));
        }
        reported
    }
}

/// The time of the last change, from what the client told of the blob, or
/// the report of the client's error.
pub open spec fn dated_as(
    answer: Result<BlobProperties, Error>,
    res: Result<SystemTime, DriverError>,
) -> bool {
    match answer {
        Ok(properties) => res == Ok::<SystemTime, DriverError>(properties.date),
        Err(error) => res matches Err(reported) && error.reports(reported),
    }
}

/// Reports the kind of an error of the service: the error that stands for
/// what is read of the kind, which is `ResourceNotFound`,
/// `AuthenticationFailed`, or `Any` with a description.
pub fn from_error_kind(kind: &ErrorKind) -> (error: DriverError)
    ensures
        exists|failure: AzureFailure| #[trigger]
            read_of_kind(kind, failure) && error == azure_error(failure),
        error is ResourceNotFound || error is AuthenticationFailed || error is Any,
{
    let failure = azure_failure(kind);
    assert(read_of_kind(kind, failure));
    from_azure_failure(failure)
}

/// What the service tells of one blob.
pub struct BlobProperties {
    pub date: SystemTime,
}

/// The calls that the backend makes on the blob service. An
/// implementation says what each container holds, and answers each call
/// from it: a call that succeeded did what it was asked to.
pub trait ClientBuilderTrait {
    /// The blobs of a container: the content stored under each path. A
    /// client says what they are.
    closed spec fn blobs(&self, container: Seq<char>) -> Files {
        arbitrary()
    }

    /// The content of the blob at `path`.
    fn get_blob_content(&self, container: &str, path: &str) -> (res: Result<Vec<u8>, Error>)
        ensures
            res matches Ok(content) ==> self.blobs(container@).contains_key(path@) && content@
                == self.blobs(container@)[path@],
    ;

    /// Whether there is a blob at `path`.
    fn blob_exists(&self, container: &str, path: &str) -> (res: Result<bool, Error>)
        ensures
            res matches Ok(found) ==> found == self.blobs(container@).contains_key(path@),
    ;

    /// Stores `content` as the blob at `path`.
    fn put_block_blob(&mut self, container: &str, path: &str, content: Vec<u8>) -> (res: Result<
        (),
        Error,
    >)
        ensures
            res is Ok ==> final(self).blobs(container@) == old(self).blobs(container@).insert(
                path@,
                content@,
            ),
    ;

    /// Removes the blob at `path`.
    fn delete(&mut self, container: &str, path: &str) -> (res: Result<DeleteBlobResponse, Error>)
        ensures
            res is Ok ==> old(self).blobs(container@).contains_key(path@) && final(self).blobs(
                container@,
            ) == old(self).blobs(container@).remove(path@),
    ;

    /// What the service tells of the blob at `path`.
    fn get_properties(&self, container: &str, path: &str) -> (res: Result<
        BlobProperties,
        Error,
    >)
        ensures
            res is Ok ==> self.blobs(container@).contains_key(path@),
    ;

    /// The paths of all the blobs of the container.
    fn list_blobs(&self, container: &str) -> (res: Result<Vec<String>, Error>)
        ensures
            res matches Ok(paths) ==> listed_paths(paths@).to_set() == self.blobs(
                container@,
            ).dom(),
    ;
}

/// A backend on one container of a blob service.
#[derive(Clone)]
pub struct AzureDriver<C: ClientBuilderTrait> {
    pub container: String,
    client: C,
}

impl<C: ClientBuilderTrait> AzureDriver<C> {
    /// A backend on the container `container`, reached through `client`.
    pub fn with_client(container: &str, client: C) -> (driver: Self)
        ensures
            driver.client() == client,
            driver.container_name() == container@,
            driver.files() == client.blobs(container@),
            !driver.reliable(),
    {
        AzureDriver { container: container.to_string(), client }
    }

    /// The client through which the service is reached.
    pub closed spec fn client(&self) -> C {
        self.client
    }

    /// The name of the container.
    pub closed spec fn container_name(&self) -> Seq<char> {
        self.container@
    }

    /// The paths of the blobs that lie in the directory `dir`: those of
    /// the paths that the client lists for the container.
    fn get_all_files_in_path(&self, dir: &str) -> (res: Result<Vec<String>, DriverError>)
        ensures
            exists|container: &str, answer: Result<Vec<String>, Error>|
                container@ == self.container_name() && #[trigger] call_ensures(
                    C::list_blobs,
                    (&self.client(), container),
                    answer,
                ) && listed_as(answer, dir@, res),
            res matches Ok(paths) ==> {
                &&& forall|path: Seq<char>| #[trigger]
                    listed_paths(paths@).contains(path) ==> self.files().contains_key(path)
                        && path_starts_with(path, dir@)
                &&& forall|path: Seq<char>| #[trigger]
                    self.files().contains_key(path) && path_starts_with(path, dir@)
                        ==> listed_paths(paths@).contains(path)
            },
    {
        let container = self.container.as_str();
        let answer = self.client.list_blobs(container);
        let ghost answered = answer;
        let res = match answer {
            Ok(listed) => {
                let paths = keep_paths_under(&listed, dir);
                proof {
                    lemma_paths_under(listed@, dir@);
                    assert forall|path: Seq<char>| #[trigger]
                        listed_paths(listed@).contains(path) <==> self.files().contains_key(
                            path,
                        ) by {
                        assert(listed_paths(listed@).to_set().contains(path)
                            <==> listed_paths(listed@).contains(path));
                    }
                }
                Ok(paths)
            },
            Err(error) => Err(error.report()),
        };
        proof {
            assert(call_ensures(C::list_blobs, (&self.client(), container), answered));
            assert(listed_as(answered, dir@, res));
        }
        res
    }
}

impl<C: ClientBuilderTrait> Driver for AzureDriver<C> {
    closed spec fn files(&self) -> Files {
        self.client.blobs(self.container@)
    }

    open spec fn reliable(&self) -> bool {
        false
    }

    /// Asks the client for the content of the blob, and hands on what it
    /// answered.
    fn read(&self, path: &str) -> (res: Result<Vec<u8>, DriverError>)
        ensures
            exists|container: &str, answer: Result<Vec<u8>, Error>|
                container@ == self.container_name() && #[trigger] call_ensures(
                    C::get_blob_content,
                    (&self.client(), container, path),
                    answer,
                ) && handed_on(answer, res),
    {
        let container = self.container.as_str();
        let answer = self.client.get_blob_content(container, path);
        let ghost answered = answer;
        let res = match answer {
            Ok(content) => Ok(content),
            Err(error) => Err(error.report()),
        };
        proof {
            assert(call_ensures(C::get_blob_content, (&self.client(), container, path), answered));
            assert(handed_on(answered, res));
        }
        res
    }

    /// Asks the client whether the blob exists, and hands on what it
    /// answered.
    fn file_exists(&self, path: &str) -> (res: Result<bool, DriverError>)
        ensures
            exists|container: &str, answer: Result<bool, Error>|
                container@ == self.container_name() && #[trigger] call_ensures(
                    C::blob_exists,
                    (&self.client(), container, path),
                    answer,
                ) && handed_on(answer, res),
    {
        let container = self.container.as_str();
        let answer = self.client.blob_exists(container, path);
        let ghost answered = answer;
        let res = match answer {
            Ok(found) => Ok(found),
            Err(error) => Err(error.report()),
        };
        proof {
            assert(call_ensures(C::blob_exists, (&self.client(), container, path), answered));
            assert(handed_on(answered, res));
        }
        res
    }

    /// Has the client store the content as the blob, and is done as the
    /// client is. The client is what that one call left of it.
    fn write(&mut self, path: &str, content: Vec<u8>) -> (res: Result<(), DriverError>)
        ensures
            final(self).container_name() == old(self).container_name(),
            exists|client: &mut C, container: &str, answer: Result<(), Error>|
                *client == old(self).client() && *final(client) == final(self).client()
                    && container@ == old(self).container_name() && #[trigger] call_ensures(
                    C::put_block_blob,
                    (client, container, path, content),
                    answer,
                ) && done_as(answer, res),
    {
        let answer = self.client.put_block_blob(self.container.as_str(), path, content);
        let ghost answered = answer;
        let res = match answer {
            Ok(_) => Ok(()),
            Err(error) => Err(error.report()),
        };
        proof {
            assert(done_as(answered, res));
        }
        res
    }

    /// Has the client remove the blob, and is done as the client is. The
    /// client is what that one call left of it.
    fn delete(&mut self, path: &str) -> (res: Result<(), DriverError>)
        ensures
            final(self).container_name() == old(self).container_name(),
            exists|client: &mut C, container: &str, answer: Result<DeleteBlobResponse, Error>|
                *client == old(self).client() && *final(client) == final(self).client()
                    && container@ == old(self).container_name() && #[trigger] call_ensures(
                    C::delete,
                    (client, container, path),
                    answer,
                ) && done_as(answer, res),
    {
        let answer = self.client.delete(self.container.as_str(), path);
        let ghost answered = answer;
        let res = match answer {
            Ok(_) => Ok(()),
            Err(error) => Err(error.report()),
        };
        proof {
            assert(done_as(answered, res));
        }
        res
    }

    /// Asks the client for the paths of the container, and has it remove,
    /// one after the other, those that lie in the directory; it stops at
    /// the first that the client fails to remove.
    fn delete_directory(&mut self, path: &str) -> (res: Result<(), DriverError>)
        ensures
            final(self).container_name() == old(self).container_name(),
            exists|container: &str, listing: Result<Vec<String>, Error>|
                {
                    &&& container@ == old(self).container_name()
                    &&& #[trigger] call_ensures(
                        C::list_blobs,
                        (&old(self).client(), container),
                        listing,
                    )
                    &&& cleared_as(
                        listing,
                        path@,
                        final(self).client() == old(self).client(),
                        res,
                    )
                    &&& match listing {
                        Ok(listed) => paths_under(listed@, path@).len() > 0 ==> exists|
                            clients: Seq<C>,
                            answers: Seq<Result<DeleteBlobResponse, Error>>,
                        |
                            {
                                &&& #[trigger] removed_in_turn(
                                    paths_under(listed@, path@),
                                    clients,
                                    answers,
                                    old(self).client(),
                                    final(self).client(),
                                    res,
                                )
                                &&& forall|i: int| #[trigger]
                                    made(answers, i) ==> exists|
                                        client: &mut C,
                                        holder: &str,
                                        blob: &str,
                                    |
                                        *client == clients[i] && *final(client) == clients[i + 1]
                                            && holder@ == old(self).container_name() && blob@
                                            == paths_under(listed@, path@)[i]@
                                            && #[trigger] call_ensures(
                                            C::delete,
                                            (client, holder, blob),
                                            answers[i],
                                        )
                            },
                        Err(_) => true,
                    }
                },
    {
        let found = self.get_all_files_in_path(path);
        let ghost (container, listing) = choose|
            container: &str,
            listing: Result<Vec<String>, Error>,
        |
            container@ == self.container_name() && #[trigger] call_ensures(
                C::list_blobs,
                (&self.client(), container),
                listing,
            ) && listed_as(listing, path@, found);
        let paths = match found {
            Ok(paths) => paths,
            Err(error) => {
                proof {
                    assert(cleared_as(listing, path@, true, Err(error)));
                }
                return Err(error);
            },
        };
        if paths.len() == 0 {
            proof {
                assert(cleared_as(listing, path@, true, Err(DriverError::ResourceNotFound)));
            }
            return Err(DriverError::ResourceNotFound);
        }
        let ghost before = self.files();
        let ghost name = self.container@;
        proof {
            assert(listed_paths(paths@)[0] == paths@[0]@);
            assert(listed_paths(paths@).contains(paths@[0]@));
        }
        let holder = self.container.as_str();
        let res = remove_in_turn(
            &mut self.client,
            C::delete,
            holder,
            &paths,
            Ghost(|client: C| client.blobs(name)),
        );
        proof {
            let (clients, answers) = choose|
                clients: Seq<C>,
                answers: Seq<Result<DeleteBlobResponse, Error>>,
            |
                {
                    &&& #[trigger] removed_in_turn(
                        paths@,
                        clients,
                        answers,
                        old(self).client(),
                        self.client(),
                        res,
                    )
                    &&& forall|i: int| #[trigger]
                        made(answers, i) ==> exists|client: &mut C, blob: &str|
                            *client == clients[i] && *final(client) == clients[i + 1] && blob@
                                == paths@[i]@ && #[trigger] call_ensures(
                                C::delete,
                                (client, holder, blob),
                                answers[i],
                            )
                };
            assert forall|i: int| #[trigger] made(answers, i) implies exists|
                client: &mut C,
                holder: &str,
                blob: &str,
            |
                *client == clients[i] && *final(client) == clients[i + 1] && holder@ == old(
                    self,
                ).container_name() && blob@ == paths@[i]@ && #[trigger] call_ensures(
                    C::delete,
                    (client, holder, blob),
                    answers[i],
                ) by {
                let (client, blob) = choose|client: &mut C, blob: &str|
                    *client == clients[i] && *final(client) == clients[i + 1] && blob@
                        == paths@[i]@ && #[trigger] call_ensures(
                        C::delete,
                        (client, holder, blob),
                        answers[i],
                    );
                assert(call_ensures(C::delete, (client, holder, blob), answers[i]));
            }
            if res is Ok {
                lemma_all_removed(before, paths@, path@);
            }
            assert(cleared_as(listing, path@, false, res));
        }
        res
    }

    /// Asks the client what it knows of the blob, and answers with the
    /// date that it gave.
    fn last_modified(&self, path: &str) -> (res: Result<SystemTime, DriverError>)
        ensures
            exists|container: &str, answer: Result<BlobProperties, Error>|
                container@ == self.container_name() && #[trigger] call_ensures(
                    C::get_properties,
                    (&self.client(), container, path),
                    answer,
                ) && dated_as(answer, res),
    {
        let container = self.container.as_str();
        let answer = self.client.get_properties(container, path);
        let ghost answered = answer;
        let res = match answer {
            Ok(properties) => Ok(properties.date),
            Err(error) => Err(error.report()),
        };
        proof {
            assert(call_ensures(C::get_properties, (&self.client(), container, path), answered));
            assert(dated_as(answered, res));
        }
        res
    }
}

} // verus!
