use std::time::SystemTime;

use active_storage::drivers::azure::{AzureDriver, BlobProperties};
use active_storage::drivers::gcp_storage::GoogleCloudStorage;
use active_storage::drivers::inmem::InMemoryDriver;
use active_storage::drivers::{azure, gcp_storage, Driver};
use active_storage::errors::DriverError;
use active_storage::store::Store;
use active_storage::StoreConfig;
use azure_storage_blobs::blob::operations::DeleteBlobResponse;
use google_cloud_storage::http::error::ErrorResponse;
use google_cloud_storage::http::objects::Object;
use google_cloud_storage::http::Error;

fn join(location: &str, rest: &str) -> String {
    if location.is_empty() {
        rest.to_string()
    } else {
        format!("{location}/{rest}")
    }
}

fn assert_unknown_files<D: Driver>(driver: &mut Store<D>) {
    let path = "unknown/file.txt";
    assert!(!driver.file_exists(path).unwrap(), "file should not exists");
    assert!(matches!(
        driver.delete(path),
        Err(DriverError::ResourceNotFound)
    ));
    assert!(matches!(
        driver.delete_directory(path),
        Err(DriverError::ResourceNotFound)
    ));
    assert!(matches!(
        driver.last_modified(path),
        Err(DriverError::ResourceNotFound)
    ));
}

fn assert_write_file<D: Driver>(driver: &mut Store<D>, file: &str) {
    assert!(driver.write(file, b"content").is_ok(), "file should be written");
    assert!(driver.file_exists(file).unwrap(), "file should be found");
    assert_eq!(
        driver.read::<String>(file).unwrap(),
        "content".to_string(),
        "invalid file content"
    );
}

fn assert_delete_file<D: Driver>(driver: &mut Store<D>, path: &str) {
    assert!(driver.delete(path).is_ok(), "file should be deleted");
    assert!(
        !driver.file_exists(path).unwrap(),
        "file should not exist after deletion"
    );
}

fn assert_last_modified<D: Driver>(driver: &mut Store<D>, path: &str) {
    let file = join(path, "file.txt");
    assert!(driver.write(&file, b"content").is_ok(), "file should be written");
    assert!(
        driver
            .last_modified(&file)
            .unwrap()
            .elapsed()
            .unwrap()
            .as_secs()
            < 1,
        "last modified file should be less then 1 second"
    );
}

fn assert_directories<D: Driver>(driver: &mut Store<D>, path: &str) {
    let foo_directory = join(path, "foo");
    let bar_directory = join(path, "bar");
    let foo_directory_file_1 = join(&foo_directory, "foo_file-1.txt");
    let bar_directory_file_1 = join(&bar_directory, "bar_file-1.txt");
    let bar_directory_file_2 = join(&bar_directory, "bar_file-2.txt");

    driver.write(&foo_directory_file_1, b"content").unwrap();
    driver.write(&bar_directory_file_1, b"content").unwrap();
    driver.write(&bar_directory_file_2, b"content").unwrap();

    assert!(
        driver.delete_directory(&bar_directory).is_ok(),
        "expected bar directory to be deleted"
    );
    assert!(
        driver.file_exists(&foo_directory_file_1).unwrap(),
        "foo file should be exists after bar directory deletion"
    );
    assert!(
        !driver.file_exists(&bar_directory_file_1).unwrap(),
        "bar file should be deleted after bar directory deletion"
    );
    assert!(
        !driver.file_exists(&bar_directory_file_2).unwrap(),
        "bar file should be deleted after bar directory deletion"
    );
}

fn test_driver<D: Driver>(driver: &mut Store<D>, location: &str) {
    let foo_directory = join(location, "foo");
    let foo_directory_file_1 = join(&foo_directory, "foo_file-1.txt");

    assert_unknown_files(driver);
    assert_write_file(driver, &foo_directory_file_1);
    assert_last_modified(driver, location);
    assert_delete_file(driver, &foo_directory_file_1);
    assert_directories(driver, location);
}

#[test]
fn inmem_inmem() {
    let mut inmem_driver = StoreConfig::InMem().build().unwrap();
    test_driver(&mut inmem_driver, "");
}

const CONTAINER_NAME: &str = "test-container";

struct AzureMockClient {
    inner: InMemoryDriver,
}

fn blob_not_found() -> azure_core::error::Error {
    let kind = azure_storage::ErrorKind::HttpResponse {
        status: azure_core::StatusCode::NotFound,
        error_code: Some("BlobNotFound".to_string()),
    };
    azure_core::error::Error::message(kind, "")
}

impl azure::ClientBuilderTrait for AzureMockClient {
    fn get_blob_content(&self, container: &str, path: &str) -> azure_core::Result<Vec<u8>> {
        assert_eq!(container, CONTAINER_NAME);
        self.inner.read(path).map_err(|_| blob_not_found())
    }

    fn blob_exists(&self, container: &str, path: &str) -> azure_core::Result<bool> {
        assert_eq!(container, CONTAINER_NAME);
        self.inner.file_exists(path).map_err(|_| blob_not_found())
    }

    fn put_block_blob(
        &mut self,
        container: &str,
        path: &str,
        content: Vec<u8>,
    ) -> azure_core::Result<()> {
        assert_eq!(container, CONTAINER_NAME);
        let _ = self.inner.write(path, content);
        Ok(())
    }

    fn delete(&mut self, container: &str, path: &str) -> azure_core::Result<DeleteBlobResponse> {
        assert_eq!(container, CONTAINER_NAME);
        if self.inner.delete(path).is_err() {
            Err(blob_not_found())
        } else {
            Ok(DeleteBlobResponse {
                delete_type_permanent: false,
                request_id: azure_core::RequestId::new_v4(),
                date: SystemTime::now().into(),
            })
        }
    }

    fn get_properties(&self, container: &str, path: &str) -> azure_core::Result<BlobProperties> {
        assert_eq!(container, CONTAINER_NAME);
        if self.inner.file_exists(path).unwrap() {
            Ok(BlobProperties {
                date: SystemTime::now(),
            })
        } else {
            Err(blob_not_found())
        }
    }

    fn list_blobs(&self, container: &str) -> azure_core::Result<Vec<String>> {
        assert_eq!(container, CONTAINER_NAME);
        Ok(self
            .inner
            .get_files()
            .into_iter()
            .map(|(path, _)| path)
            .collect())
    }
}

#[test]
fn azure_inmem() {
    let mock_client = AzureMockClient {
        inner: InMemoryDriver::default(),
    };
    let azure_driver = AzureDriver::with_client(CONTAINER_NAME, mock_client);
    let mut store = StoreConfig::with_driver(azure_driver);
    test_driver(&mut store, "");
}

const BUCKET_NAME: &str = "test-bucket";

struct GcpMockClient {
    inner: InMemoryDriver,
}

fn not_found() -> Error {
    Error::Response(ErrorResponse {
        errors: vec![],
        message: "Not found".to_string(),
        code: 404,
    })
}

fn default_object(path: &str) -> Object {
    Object {
        name: path.to_string(),
        bucket: BUCKET_NAME.to_string(),
        updated: Some(SystemTime::now().into()),
        time_created: Some(SystemTime::now().into()),
        ..Default::default()
    }
}

impl gcp_storage::ClientBuilderTrait for GcpMockClient {
    fn download_object(&self, bucket: &str, path: &str) -> Result<Vec<u8>, Error> {
        assert_eq!(bucket, BUCKET_NAME);
        self.inner.read(path).map_err(|_| not_found())
    }

    fn get_object_details(&self, bucket: &str, path: &str) -> Result<Object, Error> {
        assert_eq!(bucket, BUCKET_NAME);
        if self.inner.file_exists(path).unwrap() {
            Ok(default_object(path))
        } else {
            Err(not_found())
        }
    }

    fn object_exists(&self, bucket: &str, path: &str) -> Result<bool, Error> {
        assert_eq!(bucket, BUCKET_NAME);
        self.inner.file_exists(path).map_err(|_| not_found())
    }

    fn upload_objects(
        &mut self,
        bucket: &str,
        path: &str,
        content: Vec<u8>,
    ) -> Result<Object, Error> {
        assert_eq!(bucket, BUCKET_NAME);
        let _ = self.inner.write(path, content);
        Ok(default_object(path))
    }

    fn delete_objects(&mut self, bucket: &str, path: &str) -> Result<(), Error> {
        assert_eq!(bucket, BUCKET_NAME);
        self.inner.delete(path).map_err(|_| not_found())
    }

    fn list_objects(&self, bucket: &str, _path: &str) -> Result<Vec<String>, Error> {
        assert_eq!(bucket, BUCKET_NAME);
        Ok(self
            .inner
            .get_files()
            .into_iter()
            .map(|(path, _)| path)
            .collect())
    }
}

#[test]
fn gcp_storage_inmem() {
    let mock_client = GcpMockClient {
        inner: InMemoryDriver::default(),
    };
    let gcs_driver = GoogleCloudStorage::with_client(BUCKET_NAME, mock_client);
    let mut store = StoreConfig::with_driver(gcs_driver);
    test_driver(&mut store, "");
}

fn sorted_paths(driver: &InMemoryDriver) -> Vec<String> {
    let mut paths: Vec<String> = driver
        .get_files()
        .into_iter()
        .map(|(path, _)| path)
        .collect();
    paths.sort();
    paths
}

#[test]
fn validate_store() {
    let mut driver = InMemoryDriver::default();

    let _ = driver.write("foo/file-1.txt", b"".into());
    let _ = driver.write("foo/file-2.txt", b"".into());
    let _ = driver.write("bar/file-1.txt", b"".into());
    let _ = driver.write("bar/file-2.txt", b"".into());

    assert_eq!(
        sorted_paths(&driver),
        vec![
            "bar/file-1.txt".to_string(),
            "bar/file-2.txt".to_string(),
            "foo/file-1.txt".to_string(),
            "foo/file-2.txt".to_string(),
        ]
    );
    for (_, file) in driver.get_files() {
        assert!(file.content.is_empty());
    }

    assert!(driver.delete_directory("foo").is_ok());
    assert!(driver.delete("bar/file-1.txt").is_ok());

    assert_eq!(sorted_paths(&driver), vec!["bar/file-2.txt".to_string()]);
}

#[test]
fn directory_is_matched_by_whole_components() {
    let mut store = StoreConfig::InMem().build().unwrap();
    store.write("foo/1.txt", b"one").unwrap();
    store.write("foobar/1.txt", b"two").unwrap();
    store.write("foo/deep/2.txt", b"three").unwrap();
    assert!(store.delete_directory("foo").is_ok());
    assert!(!store.file_exists("foo/1.txt").unwrap());
    assert!(!store.file_exists("foo/deep/2.txt").unwrap());
    assert!(store.file_exists("foobar/1.txt").unwrap());
    assert_eq!(store.read_bytes("foobar/1.txt").unwrap(), b"two".to_vec());
}

#[test]
fn deleting_a_directory_is_by_prefix() {
    let mut store = StoreConfig::InMem().build().unwrap();
    store.write("foo/1.txt", b"content").unwrap();
    store.write("bar/1.txt", b"content").unwrap();
    assert!(store.delete_directory("bar").is_ok());
    assert!(store.file_exists("foo/1.txt").unwrap());
    assert!(!store.file_exists("bar/1.txt").unwrap());
    assert!(matches!(
        store.delete_directory("bar"),
        Err(DriverError::ResourceNotFound)
    ));
    assert!(matches!(
        store.delete_directory("nothing-here"),
        Err(DriverError::ResourceNotFound)
    ));
    assert!(store.file_exists("foo/1.txt").unwrap());
}

#[test]
fn writing_twice_is_idempotent() {
    let mut store = StoreConfig::InMem().build().unwrap();
    store.write("a/b.bin", &[1, 2, 3]).unwrap();
    assert!(store.file_exists("a/b.bin").unwrap());
    assert_eq!(store.read_bytes("a/b.bin").unwrap(), vec![1, 2, 3]);
    store.write("a/b.bin", &[1, 2, 3]).unwrap();
    assert!(store.file_exists("a/b.bin").unwrap());
    assert_eq!(store.read_bytes("a/b.bin").unwrap(), vec![1, 2, 3]);
    assert_eq!(store.read::<Vec<u8>>("a/b.bin").unwrap(), vec![1, 2, 3]);
}

#[test]
fn writing_replaces_what_was_there() {
    let mut store = StoreConfig::InMem().build().unwrap();
    store.write("p", b"first").unwrap();
    store.write("p", b"second").unwrap();
    assert_eq!(store.read_text("p").unwrap(), "second");
    let driver_files = {
        let mut driver = InMemoryDriver::new();
        driver.write("p", b"first".to_vec()).unwrap();
        driver.write("p", b"second".to_vec()).unwrap();
        driver.get_files()
    };
    assert_eq!(driver_files.len(), 1);
    assert_eq!(driver_files[0].0, "p");
    assert_eq!(driver_files[0].1.content, b"second".to_vec());
}

#[test]
fn text_round_trip_and_decode_error() {
    let mut store = StoreConfig::InMem().build().unwrap();
    store.write("p", b"content").unwrap();
    assert_eq!(store.read::<String>("p").unwrap(), "content");
    assert_eq!(store.read_text("p").unwrap(), "content");

    store.write("bad", &[0xff, 0xfe, 0x00]).unwrap();
    assert!(matches!(
        store.read::<String>("bad"),
        Err(DriverError::DecodeError)
    ));
    assert!(matches!(store.read_text("bad"), Err(DriverError::DecodeError)));
    assert_eq!(store.read_bytes("bad").unwrap(), vec![0xff, 0xfe, 0x00]);

    store.write("utf8", "h\u{e9}llo \u{1f600}".as_bytes()).unwrap();
    assert_eq!(store.read_text("utf8").unwrap(), "h\u{e9}llo \u{1f600}");

    assert!(matches!(
        store.read_text("missing"),
        Err(DriverError::ResourceNotFound)
    ));
    assert!(matches!(
        store.read::<String>("missing"),
        Err(DriverError::ResourceNotFound)
    ));
    assert!(matches!(
        store.read_bytes("missing"),
        Err(DriverError::ResourceNotFound)
    ));
}

#[test]
fn last_modified_is_the_time_of_the_write() {
    let before = SystemTime::now();
    let mut store = StoreConfig::InMem().build().unwrap();
    store.write("p", b"x").unwrap();
    let stamp = store.last_modified("p").unwrap();
    assert!(stamp >= before);
    assert!(stamp <= SystemTime::now());
}

#[test]
fn azure_driver_reports_failures_of_the_service() {
    let mock_client = AzureMockClient {
        inner: InMemoryDriver::default(),
    };
    let mut driver = AzureDriver::with_client(CONTAINER_NAME, mock_client);
    assert_eq!(driver.container, CONTAINER_NAME);
    assert!(matches!(
        driver.read("nothing"),
        Err(DriverError::ResourceNotFound)
    ));
    assert!(matches!(
        driver.delete_directory("nothing"),
        Err(DriverError::ResourceNotFound)
    ));
    driver.write("dir/a", b"1".to_vec()).unwrap();
    driver.write("dir/b", b"2".to_vec()).unwrap();
    driver.write("other/c", b"3".to_vec()).unwrap();
    assert!(driver.delete_directory("dir").is_ok());
    assert!(!driver.file_exists("dir/a").unwrap());
    assert!(!driver.file_exists("dir/b").unwrap());
    assert_eq!(driver.read("other/c").unwrap(), b"3".to_vec());
}

#[test]
fn gcp_driver_reports_failures_of_the_service() {
    let mock_client = GcpMockClient {
        inner: InMemoryDriver::default(),
    };
    let mut driver = GoogleCloudStorage::with_client(BUCKET_NAME, mock_client);
    assert!(matches!(
        driver.read("nothing"),
        Err(DriverError::ResourceNotFound)
    ));
    assert!(matches!(
        driver.last_modified("nothing"),
        Err(DriverError::ResourceNotFound)
    ));
    driver.write("dir/a", b"1".to_vec()).unwrap();
    driver.write("elsewhere/b", b"2".to_vec()).unwrap();
    assert!(driver.delete_directory("dir").is_ok());
    assert!(!driver.file_exists("dir/a").unwrap());
    assert!(driver.file_exists("elsewhere/b").unwrap());
}

struct TimelessClient;

impl gcp_storage::ClientBuilderTrait for TimelessClient {
    fn download_object(&self, _bucket: &str, _path: &str) -> Result<Vec<u8>, Error> {
        Err(Error::TokenSource("no token".into()))
    }

    fn get_object_details(&self, _bucket: &str, path: &str) -> Result<Object, Error> {
        let mut object = Object::default();
        object.name = path.to_string();
        if path == "created" {
            object.time_created = Some(SystemTime::UNIX_EPOCH.into());
        }
        if path == "both" {
            object.time_created = Some(SystemTime::UNIX_EPOCH.into());
            object.updated =
                Some((SystemTime::UNIX_EPOCH + std::time::Duration::from_secs(60)).into());
        }
        Ok(object)
    }

    fn object_exists(&self, _bucket: &str, _path: &str) -> Result<bool, Error> {
        Err(Error::Response(ErrorResponse {
            errors: vec![],
            message: "Forbidden".to_string(),
            code: 403,
        }))
    }

    fn upload_objects(
        &mut self,
        _bucket: &str,
        _path: &str,
        _content: Vec<u8>,
    ) -> Result<Object, Error> {
        Err(Error::TokenSource("no token".into()))
    }

    fn delete_objects(&mut self, _bucket: &str, _path: &str) -> Result<(), Error> {
        Err(not_found())
    }

    fn list_objects(&self, _bucket: &str, _path: &str) -> Result<Vec<String>, Error> {
        Ok(vec!["dir/a".to_string(), "dirt/b".to_string()])
    }
}

#[test]
fn gcp_driver_maps_the_errors_of_the_service() {
    let mut driver = GoogleCloudStorage::with_client(BUCKET_NAME, TimelessClient);
    assert_eq!(driver.read("p"), Err(DriverError::AuthenticationFailed));
    assert_eq!(
        driver.write("p", vec![1]),
        Err(DriverError::AuthenticationFailed)
    );
    assert_eq!(
        driver.file_exists("p"),
        Err(DriverError::Any("Forbidden".to_string()))
    );
    assert_eq!(driver.delete("p"), Err(DriverError::ResourceNotFound));
    assert_eq!(
        driver.delete_directory("dir"),
        Err(DriverError::ResourceNotFound)
    );
    assert_eq!(
        driver.delete_directory("nothing"),
        Err(DriverError::ResourceNotFound)
    );
    assert_eq!(
        driver.last_modified("neither"),
        Err(DriverError::Any("last modify is missing".to_string()))
    );
    assert_eq!(driver.last_modified("created"), Ok(SystemTime::UNIX_EPOCH));
    assert_eq!(
        driver.last_modified("both"),
        Ok(SystemTime::UNIX_EPOCH + std::time::Duration::from_secs(60))
    );
}

struct RefusingClient;

fn refused(code: &str) -> azure_core::error::Error {
    let kind = azure_storage::ErrorKind::HttpResponse {
        status: azure_core::StatusCode::Forbidden,
        error_code: Some(code.to_string()),
    };
    azure_core::error::Error::message(kind, "refused")
}

impl azure::ClientBuilderTrait for RefusingClient {
    fn get_blob_content(&self, _container: &str, _path: &str) -> azure_core::Result<Vec<u8>> {
        Err(refused("AuthenticationFailed"))
    }

    fn blob_exists(&self, _container: &str, _path: &str) -> azure_core::Result<bool> {
        Err(azure_core::error::Error::message(
            azure_storage::ErrorKind::Credential,
            "no key",
        ))
    }

    fn put_block_blob(
        &mut self,
        _container: &str,
        _path: &str,
        _content: Vec<u8>,
    ) -> azure_core::Result<()> {
        Err(refused("ContainerNotFound"))
    }

    fn delete(&mut self, _container: &str, _path: &str) -> azure_core::Result<DeleteBlobResponse> {
        Err(refused("ServerBusy"))
    }

    fn get_properties(&self, _container: &str, _path: &str) -> azure_core::Result<BlobProperties> {
        Err(azure_core::error::Error::message(
            azure_storage::ErrorKind::Io,
            "broken pipe",
        ))
    }

    fn list_blobs(&self, _container: &str) -> azure_core::Result<Vec<String>> {
        Ok(vec!["dir/a".to_string()])
    }
}

#[test]
fn azure_driver_maps_the_errors_of_the_service() {
    let mut driver = AzureDriver::with_client(CONTAINER_NAME, RefusingClient);
    assert_eq!(driver.read("p"), Err(DriverError::AuthenticationFailed));
    assert_eq!(driver.file_exists("p"), Err(DriverError::AuthenticationFailed));
    assert_eq!(driver.write("p", vec![1]), Err(DriverError::ResourceNotFound));
    assert_eq!(
        driver.delete("p"),
        Err(DriverError::Any("HttpResponse(403,ServerBusy)".to_string()))
    );
    assert_eq!(
        driver.delete_directory("dir"),
        Err(DriverError::Any("HttpResponse(403,ServerBusy)".to_string()))
    );
    assert_eq!(
        driver.delete_directory("elsewhere"),
        Err(DriverError::ResourceNotFound)
    );
    assert_eq!(
        driver.last_modified("p"),
        Err(DriverError::Any("Io".to_string()))
    );
}

#[test]
fn a_copy_of_the_in_memory_backend_is_independent() {
    let mut driver = InMemoryDriver::new();
    driver.write("a", b"1".to_vec()).unwrap();
    let mut copy = driver.clone();
    assert_eq!(copy.read("a").unwrap(), b"1".to_vec());
    copy.write("b", b"2".to_vec()).unwrap();
    copy.delete("a").unwrap();
    assert!(driver.file_exists("a").unwrap());
    assert!(!driver.file_exists("b").unwrap());
    assert_eq!(
        copy.last_modified("b").is_ok(),
        driver.last_modified("a").is_ok()
    );
}

#[test]
fn the_in_memory_backend_answers_the_time_that_it_stored() {
    let mut driver = InMemoryDriver::new();
    driver.write("a", b"1".to_vec()).unwrap();
    driver.write("b", b"2".to_vec()).unwrap();
    let files = driver.get_files();
    for (path, file) in &files {
        assert_eq!(driver.last_modified(path), Ok(file.last_modified));
    }
    let first = driver.last_modified("a").unwrap();
    assert_eq!(driver.last_modified("a"), Ok(first));
    let copy = driver.clone();
    assert_eq!(copy.last_modified("a"), Ok(first));
    driver.write("b", b"3".to_vec()).unwrap();
    assert_eq!(driver.last_modified("a"), Ok(first));
    driver.delete("a").unwrap();
    assert_eq!(
        driver.last_modified("a"),
        Err(DriverError::ResourceNotFound)
    );
}
