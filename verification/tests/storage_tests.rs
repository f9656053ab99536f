use zarr_tui::storage::{
    array_path_from_listing_key, insert_array_path, may_hold_array, parse_aws_credentials,
    s3_location_from_url, StoreError, StoreLocation,
};

#[test]
fn s3_paths_name_bucket_and_prefix() {
    match StoreLocation::parse("s3://my-bucket/path/to/data.zarr") {
        Ok(StoreLocation::S3(loc)) => {
            assert_eq!(loc.bucket, "my-bucket");
            assert_eq!(loc.prefix, "path/to/data.zarr");
        }
        _ => panic!("expected an S3 location"),
    }
    match StoreLocation::parse("s3://bucket") {
        Ok(StoreLocation::S3(loc)) => {
            assert_eq!(loc.bucket, "bucket");
            assert_eq!(loc.prefix, "");
        }
        _ => panic!("expected an S3 location"),
    }
}

#[test]
fn other_paths_are_local() {
    match StoreLocation::parse("/data/fire.zarr") {
        Ok(StoreLocation::Filesystem(p)) => assert_eq!(p, "/data/fire.zarr"),
        _ => panic!("expected a local path"),
    }
    match StoreLocation::parse("S3://bucket/x") {
        Ok(StoreLocation::Filesystem(p)) => assert_eq!(p, "S3://bucket/x"),
        _ => panic!("expected a local path"),
    }
}

#[test]
fn invalid_s3_url_is_refused() {
    assert!(matches!(StoreLocation::parse("s3://[bucket/x"), Err(StoreError::InvalidUrl(_))));
}

#[test]
fn s3_url_without_host_is_refused() {
    assert!(matches!(s3_location_from_url(None, "/x".to_string()), Err(StoreError::MissingBucket)));
    match s3_location_from_url(Some("b".to_string()), "//a/b".to_string()) {
        Ok(loc) => assert_eq!((loc.bucket.as_str(), loc.prefix.as_str()), ("b", "a/b")),
        Err(_) => panic!("expected a location"),
    }
}

#[test]
fn listing_keys_reveal_arrays() {
    assert_eq!(array_path_from_listing_key("data.zarr/temp/.zarray", "data.zarr"), Some("/temp".to_string()));
    assert_eq!(array_path_from_listing_key("data.zarr/temp/zarr.json", "data.zarr/"), Some("/temp".to_string()));
    assert_eq!(array_path_from_listing_key("temp/zarr.json", ""), Some("/temp".to_string()));
    assert_eq!(array_path_from_listing_key("zarr.json", ""), Some("/zarr.json".to_string()));
    assert_eq!(array_path_from_listing_key("data.zarr/temp/c/0/0", "data.zarr"), None);
    assert_eq!(array_path_from_listing_key("data.zarr/.zattrs", "data.zarr"), None);
    assert_eq!(array_path_from_listing_key("data.zarr/.hidden/zarr.json", "data.zarr"), None);
    assert_eq!(array_path_from_listing_key("data.zarr/zarr.json", "data.zarr"), Some("/zarr.json".to_string()));
    assert_eq!(array_path_from_listing_key("other/temp/.zarray", "data.zarr"), Some("/other".to_string()));
    assert_eq!(array_path_from_listing_key("/temp/.zarray", ""), None);
}

#[test]
fn directory_names_that_may_hold_arrays() {
    assert!(may_hold_array("temperature"));
    assert!(!may_hold_array(".zgroup"));
    assert!(!may_hold_array("__pycache__"));
    assert!(may_hold_array("__pycache__2"));
    assert!(may_hold_array(""));
}

#[test]
fn array_paths_sorted_without_repeats() {
    let mut paths: Vec<String> = Vec::new();
    for p in ["/b", "/a", "/b", "/c", "/B", "/ab", "/a"] {
        insert_array_path(&mut paths, p.to_string());
    }
    assert_eq!(paths, vec!["/B", "/a", "/ab", "/b", "/c"]);
    let mut other: Vec<String> = Vec::new();
    for p in ["/c", "/ab", "/B", "/a", "/b"] {
        insert_array_path(&mut other, p.to_string());
    }
    assert_eq!(paths, other);
}

const CREDENTIALS: &str = "[other]\naws_access_key_id = OTHERKEY\naws_secret_access_key = othersecret\n\n[default]\r\n  aws_access_key_id=AKIDEXAMPLE  \r\naws_secret_access_key = wJalrXUtnFEMI\r\nregion = eu-west-2\n[later]\naws_access_key_id = LATERKEY\n";

#[test]
fn credentials_of_a_profile() {
    assert_eq!(
        parse_aws_credentials(CREDENTIALS, "default"),
        Some(("AKIDEXAMPLE".to_string(), "wJalrXUtnFEMI".to_string()))
    );
    assert_eq!(
        parse_aws_credentials(CREDENTIALS, "other"),
        Some(("OTHERKEY".to_string(), "othersecret".to_string()))
    );
}

#[test]
fn credentials_need_both_values() {
    assert_eq!(parse_aws_credentials(CREDENTIALS, "later"), None);
    assert_eq!(parse_aws_credentials(CREDENTIALS, "missing"), None);
    assert_eq!(parse_aws_credentials("", "default"), None);
}

#[test]
fn credentials_last_setting_wins_and_section_ends() {
    let text = "[p]\naws_access_key_id = A\naws_access_key_id = B\naws_secret_access_key = S=T\n[q]\naws_secret_access_key = X";
    assert_eq!(parse_aws_credentials(text, "p"), Some(("B".to_string(), "S=T".to_string())));
    // keys before any header do not count
    let text = "aws_access_key_id = A\naws_secret_access_key = S\n[p]\n";
    assert_eq!(parse_aws_credentials(text, "p"), None);
}
