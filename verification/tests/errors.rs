use std::io::ErrorKind;
use std::time::SystemTime;

use active_storage::contents::Contents;
use active_storage::drivers::aws_s3::{
    directory_prefix, exists_from_head, from_sdk_failure, last_modified_from, S3Operation,
    SdkFailure, ServiceCode,
};
use active_storage::drivers::azure::{from_azure_failure, from_error_kind, AzureFailure};
use active_storage::drivers::disk::{from_io_error_kind, from_io_failure, IoFailure};
use active_storage::drivers::gcp_storage::{
    exists_from_details, from_gcp_failure, from_http_error, is_missing, last_change,
    object_path, GcpFailure,
};
use google_cloud_storage::http::error::ErrorResponse;
use google_cloud_storage::http::objects::Object;
use google_cloud_storage::http::Error;
use active_storage::drivers::{keep_paths_under, must_exist, system_time_at};
use active_storage::errors::DriverError;
use active_storage::names::{compare_names, NameOrder};

#[test]
fn driver_error_messages() {
    assert_eq!(DriverError::ResourceNotFound.message(), "Resource not found");
    assert_eq!(
        DriverError::InvalidPath.message(),
        "The provided path contains invalid characters"
    );
    assert_eq!(
        DriverError::DecodeError.message(),
        "Failed to decode file contents"
    );
    assert_eq!(DriverError::Network().message(), "network error");
    assert_eq!(
        DriverError::AuthenticationFailed.message(),
        "authentication failed"
    );
    assert_eq!(
        DriverError::Any("the backend's own words".to_string()).message(),
        "the backend's own words"
    );
}

#[test]
fn contents_projections() {
    assert_eq!(Contents::new(vec![1, 2, 3]).into_bytes(), vec![1, 2, 3]);
    assert_eq!(Vec::<u8>::from(Contents::from(vec![9, 8])), vec![9, 8]);
    assert_eq!(
        Contents::new(b"content".to_vec()).into_text(),
        Some("content".to_string())
    );
    assert_eq!(Contents::new(vec![0xc3, 0x28]).into_text(), None);
    assert_eq!(Contents::new(vec![]).into_text(), Some(String::new()));
    assert_eq!(
        String::try_from(Contents::new("\u{20ac}".as_bytes().to_vec())).unwrap(),
        "\u{20ac}"
    );
    assert!(String::try_from(Contents::new(vec![0x80])).is_err());
}

#[test]
fn names_compare_byte_by_byte() {
    assert_eq!(compare_names("a", "b"), NameOrder::Before);
    assert_eq!(compare_names("b", "a"), NameOrder::After);
    assert_eq!(compare_names("same", "same"), NameOrder::Same);
    assert_eq!(compare_names("", ""), NameOrder::Same);
    assert_eq!(compare_names("", "a"), NameOrder::Before);
    assert_eq!(compare_names("prima", "primary"), NameOrder::Before);
    assert_eq!(compare_names("primary-2", "primary"), NameOrder::After);
    assert_eq!(compare_names("Z", "a"), NameOrder::Before);
    assert_eq!(compare_names("store-10", "store-2"), NameOrder::Before);
    assert_eq!(compare_names("z", "\u{e9}"), NameOrder::Before);
    for (a, b) in [("a", "b"), ("x", "x"), ("ab", "a"), ("\u{e9}", "z")] {
        let expected = match a.cmp(b) {
            std::cmp::Ordering::Less => NameOrder::Before,
            std::cmp::Ordering::Equal => NameOrder::Same,
            std::cmp::Ordering::Greater => NameOrder::After,
        };
        assert_eq!(compare_names(a, b), expected);
    }
}

#[test]
fn disk_failures() {
    assert_eq!(
        from_io_failure(IoFailure::NotFound),
        DriverError::ResourceNotFound
    );
    assert_eq!(
        from_io_failure(IoFailure::Other("disk full".to_string())),
        DriverError::Any("disk full".to_string())
    );
    assert_eq!(
        from_io_error_kind(ErrorKind::NotFound),
        DriverError::ResourceNotFound
    );
    assert_eq!(
        from_io_error_kind(ErrorKind::PermissionDenied),
        DriverError::Any(ErrorKind::PermissionDenied.to_string())
    );
}

#[test]
fn s3_failures() {
    let operations = [
        S3Operation::GetObject,
        S3Operation::HeadObject,
        S3Operation::PutObject,
        S3Operation::DeleteObject,
        S3Operation::DeleteObjects,
        S3Operation::ListObjectsV2,
    ];
    for operation in operations {
        assert_eq!(
            from_sdk_failure(operation, SdkFailure::ConstructionFailure),
            DriverError::Network()
        );
        assert_eq!(
            from_sdk_failure(operation, SdkFailure::TimeoutError),
            DriverError::Network()
        );
        assert_eq!(
            from_sdk_failure(operation, SdkFailure::DispatchFailure),
            DriverError::Network()
        );
        assert_eq!(
            from_sdk_failure(
                operation,
                SdkFailure::ResponseError(404, "response error".to_string())
            ),
            DriverError::ResourceNotFound
        );
        assert_eq!(
            from_sdk_failure(
                operation,
                SdkFailure::ResponseError(500, "response error".to_string())
            ),
            DriverError::Any("response error".to_string())
        );
        assert_eq!(
            from_sdk_failure(operation, SdkFailure::Other("odd".to_string())),
            DriverError::Any("odd".to_string())
        );
        assert_eq!(
            from_sdk_failure(
                operation,
                SdkFailure::ServiceError(ServiceCode::Other, "refused".to_string())
            ),
            DriverError::Any("refused".to_string())
        );
    }
    let missing = |operation, code| {
        from_sdk_failure(operation, SdkFailure::ServiceError(code, "m".to_string()))
            == DriverError::ResourceNotFound
    };
    assert!(missing(S3Operation::GetObject, ServiceCode::NoSuchKey));
    assert!(missing(S3Operation::HeadObject, ServiceCode::NotFound));
    assert!(missing(S3Operation::ListObjectsV2, ServiceCode::NoSuchBucket));
    assert!(!missing(S3Operation::GetObject, ServiceCode::NotFound));
    assert!(!missing(S3Operation::HeadObject, ServiceCode::NoSuchKey));
    assert!(!missing(S3Operation::PutObject, ServiceCode::NoSuchKey));
    assert!(!missing(S3Operation::DeleteObject, ServiceCode::NotFound));
    assert!(!missing(S3Operation::DeleteObjects, ServiceCode::NoSuchBucket));
    assert!(!missing(S3Operation::ListObjectsV2, ServiceCode::NoSuchKey));

    assert_eq!(exists_from_head(Ok(())), Ok(true));
    assert_eq!(
        exists_from_head(Err(SdkFailure::ServiceError(
            ServiceCode::NotFound,
            "gone".to_string()
        ))),
        Ok(false)
    );
    assert_eq!(
        exists_from_head(Err(SdkFailure::TimeoutError)),
        Err(DriverError::Network())
    );
    assert_eq!(
        exists_from_head(Err(SdkFailure::ServiceError(
            ServiceCode::Other,
            "denied".to_string()
        ))),
        Err(DriverError::Any("denied".to_string()))
    );
    assert_eq!(
        exists_from_head(Err(SdkFailure::ResponseError(
            404,
            "response error".to_string()
        ))),
        Ok(false)
    );
    assert_eq!(
        exists_from_head(Err(SdkFailure::ResponseError(
            500,
            "response error".to_string()
        ))),
        Err(DriverError::Any("response error".to_string()))
    );

    assert_eq!(directory_prefix("folder"), "folder/");
    assert_eq!(directory_prefix(""), "/");

    let stamp = SystemTime::now();
    assert_eq!(last_modified_from(Some(stamp)), Ok(stamp));
    assert_eq!(
        last_modified_from(None),
        Err(DriverError::Any("last modify is missing".to_string()))
    );
}

#[test]
fn azure_failures() {
    let answered = |code: Option<&str>| {
        from_azure_failure(AzureFailure::HttpResponse(
            code.map(str::to_string),
            "detail".to_string(),
        ))
    };
    assert_eq!(answered(Some("ContainerNotFound")), DriverError::ResourceNotFound);
    assert_eq!(answered(Some("BlobNotFound")), DriverError::ResourceNotFound);
    assert_eq!(
        answered(Some("AuthenticationFailed")),
        DriverError::AuthenticationFailed
    );
    assert_eq!(
        answered(Some("blobnotfound")),
        DriverError::Any("detail".to_string())
    );
    assert_eq!(
        answered(Some("ServerBusy")),
        DriverError::Any("detail".to_string())
    );
    assert_eq!(answered(None), DriverError::Any("detail".to_string()));
    assert_eq!(
        from_azure_failure(AzureFailure::Credential),
        DriverError::AuthenticationFailed
    );
    assert_eq!(
        from_azure_failure(AzureFailure::Other("io".to_string())),
        DriverError::Any("io".to_string())
    );

    let answered = |code: Option<&str>| {
        from_error_kind(&azure_core::error::ErrorKind::HttpResponse {
            status: azure_core::StatusCode::NotFound,
            error_code: code.map(str::to_string),
        })
    };
    assert_eq!(answered(Some("ContainerNotFound")), DriverError::ResourceNotFound);
    assert_eq!(answered(Some("BlobNotFound")), DriverError::ResourceNotFound);
    assert_eq!(
        answered(Some("AuthenticationFailed")),
        DriverError::AuthenticationFailed
    );
    assert_eq!(
        answered(Some("Other")),
        DriverError::Any("HttpResponse(404,Other)".to_string())
    );
    assert_eq!(
        answered(None),
        DriverError::Any("HttpResponse(404,unknown)".to_string())
    );
    assert_eq!(
        from_error_kind(&azure_core::error::ErrorKind::Credential),
        DriverError::AuthenticationFailed
    );
    assert_eq!(
        from_error_kind(&azure_core::error::ErrorKind::DataConversion),
        DriverError::Any("DataConversion".to_string())
    );
}

#[test]
fn gcp_failures() {
    assert_eq!(
        from_gcp_failure(GcpFailure::Response(404, "Not found".to_string())),
        DriverError::ResourceNotFound
    );
    assert_eq!(
        from_gcp_failure(GcpFailure::Response(403, "Forbidden".to_string())),
        DriverError::Any("Forbidden".to_string())
    );
    assert_eq!(
        from_gcp_failure(GcpFailure::HttpClient(true, false, "c".to_string())),
        DriverError::Network()
    );
    assert_eq!(
        from_gcp_failure(GcpFailure::HttpClient(false, true, "t".to_string())),
        DriverError::Network()
    );
    assert_eq!(
        from_gcp_failure(GcpFailure::HttpClient(false, false, "body".to_string())),
        DriverError::Any("body".to_string())
    );
    assert_eq!(
        from_gcp_failure(GcpFailure::TokenSource),
        DriverError::AuthenticationFailed
    );
    assert_eq!(
        from_gcp_failure(GcpFailure::Other("middleware".to_string())),
        DriverError::Any("middleware".to_string())
    );

    assert!(is_missing(&GcpFailure::Response(404, "Not found".to_string())));
    assert!(!is_missing(&GcpFailure::Response(500, "boom".to_string())));
    assert!(!is_missing(&GcpFailure::Response(403, String::new())));
    assert!(!is_missing(&GcpFailure::TokenSource));
    assert!(!is_missing(&GcpFailure::HttpClient(
        true,
        false,
        String::new()
    )));
    assert!(!is_missing(&GcpFailure::Other(String::new())));

    let answered = |code: u16| {
        Error::Response(ErrorResponse {
            errors: vec![],
            message: "said the service".to_string(),
            code,
        })
    };
    assert!(matches!(
        exists_from_details(Ok(Object::default())),
        Ok(true)
    ));
    assert!(matches!(exists_from_details(Err(answered(404))), Ok(false)));
    assert!(matches!(
        exists_from_details(Err(answered(500))),
        Err(Error::Response(ErrorResponse { code: 500, .. }))
    ));
    assert!(matches!(
        exists_from_details(Err(Error::TokenSource("none".into()))),
        Err(Error::TokenSource(_))
    ));

    assert_eq!(from_http_error(answered(404)), DriverError::ResourceNotFound);
    assert_eq!(
        from_http_error(answered(401)),
        DriverError::Any("said the service".to_string())
    );
    assert_eq!(
        from_http_error(Error::TokenSource("none".into())),
        DriverError::AuthenticationFailed
    );

    assert_eq!(object_path("bucket", "dir/name.txt"), "bucket/dir/name.txt");
    assert_eq!(last_change(Some(2), Some(1)), Some(2));
    assert_eq!(last_change(None, Some(1)), Some(1));
    assert_eq!(last_change(Some(2), None), Some(2));
    assert_eq!(last_change::<u8>(None, None), None);
}

#[test]
fn paths_are_kept_by_whole_components() {
    let listed = vec![
        "dir/a".to_string(),
        "dirt/b".to_string(),
        "dir".to_string(),
        "other/dir/c".to_string(),
        "dir/sub/d".to_string(),
    ];
    assert_eq!(
        keep_paths_under(&listed, "dir"),
        vec![
            "dir/a".to_string(),
            "dir".to_string(),
            "dir/sub/d".to_string()
        ]
    );
    assert_eq!(keep_paths_under(&listed, "nothing"), Vec::<String>::new());
    assert_eq!(keep_paths_under(&Vec::new(), "dir"), Vec::<String>::new());
}

#[test]
fn what_is_not_found_is_reported_so() {
    assert_eq!(must_exist(true), Ok(()));
    assert_eq!(must_exist(false), Err(DriverError::ResourceNotFound));
}

#[test]
fn a_count_of_nanoseconds_is_a_point_in_time() {
    let second = std::time::Duration::from_secs(1);
    assert_eq!(system_time_at(0), Some(SystemTime::UNIX_EPOCH));
    assert_eq!(
        system_time_at(60_000_000_000),
        Some(SystemTime::UNIX_EPOCH + 60 * second)
    );
    assert_eq!(
        system_time_at(1_500_000_001),
        Some(SystemTime::UNIX_EPOCH + std::time::Duration::new(1, 500_000_001))
    );
    assert_eq!(
        system_time_at(-1_500_000_000),
        Some(SystemTime::UNIX_EPOCH - std::time::Duration::new(1, 500_000_000))
    );
    assert_eq!(
        system_time_at(-1),
        Some(SystemTime::UNIX_EPOCH - std::time::Duration::new(0, 1))
    );
}

#[test]
fn a_point_that_no_system_time_can_hold_is_none() {
    assert_eq!(system_time_at(i128::MAX), None);
    assert_eq!(system_time_at(i128::MIN), None);
    assert_eq!(
        system_time_at((u64::MAX as i128 + 1) * 1_000_000_000),
        None
    );
}
