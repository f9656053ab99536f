use zarr_tui::dataset::{
    complete_dimension_names, coordinate_paths, dataset_variables, find_coord_array, find_data_variables, ArrayMeta,
    LayoutError,
};

fn strings(v: &[&str]) -> Vec<String> {
    v.iter().map(|s| s.to_string()).collect()
}

#[test]
fn coord_array_first_name_wins() {
    let arrays = strings(&["/lat", "/latitude", "/temp"]);
    assert_eq!(find_coord_array(&arrays, &["latitude", "lat", "y"]), Some("/latitude".to_string()));
    assert_eq!(find_coord_array(&arrays, &["lat", "latitude"]), Some("/lat".to_string()));
    assert_eq!(find_coord_array(&arrays, &["longitude", "lon", "x"]), None);
    assert_eq!(find_coord_array(&arrays, &[]), None);
}

#[test]
fn data_variables_exclude_coordinates() {
    let arrays = strings(&["/lat", "/LON", "/Temperature", "//time", "/x2", "/spatial_ref", "/Month"]);
    assert_eq!(find_data_variables(&arrays), strings(&["/Temperature", "/x2"]));
    assert_eq!(find_data_variables(&[]), Vec::<String>::new());
}

#[test]
fn data_variables_lowercase_unicode() {
    // 'İ' lowers to "i̇", which is not a coordinate name; "LATİTUDE" stays a variable
    let arrays = strings(&["/LAT", "/LATİTUDE", "/ÅR"]);
    assert_eq!(find_data_variables(&arrays), strings(&["/LATİTUDE", "/ÅR"]));
}

#[test]
fn dimension_names_all_or_nothing() {
    let all = vec![Some("time".to_string()), Some("lat".to_string()), Some("lon".to_string())];
    assert_eq!(complete_dimension_names(&all), Some(strings(&["time", "lat", "lon"])));
    let partial = vec![Some("time".to_string()), None, Some("lon".to_string())];
    assert_eq!(complete_dimension_names(&partial), None);
    assert_eq!(complete_dimension_names(&vec![]), Some(vec![]));
}

#[test]
fn array_meta_from_dimension_names() {
    let meta = ArrayMeta::from_dimension_names(&strings(&["time", "latitude", "longitude"])).unwrap();
    assert_eq!((meta.lat_axis, meta.lon_axis), (1, 2));
    let meta = ArrayMeta::from_dimension_names(&strings(&["x", "y", "lat"])).unwrap();
    assert_eq!((meta.lat_axis, meta.lon_axis), (1, 0));
    assert_eq!(ArrayMeta::from_dimension_names(&strings(&["time", "lat"])), None);
    assert_eq!(ArrayMeta::from_dimension_names(&strings(&["Lat", "Lon"])), None);
}

#[test]
fn coordinate_paths_prefer_long_names() {
    let arrays = strings(&["/lat", "/latitude", "/x", "/temp"]);
    let (lat, lon) = coordinate_paths(&arrays).unwrap();
    assert_eq!(lat, "/latitude");
    assert_eq!(lon, "/x");
}

#[test]
fn coordinate_paths_errors() {
    let no_lat = strings(&["/lon", "/temp"]);
    assert_eq!(coordinate_paths(&no_lat), Err(LayoutError::MissingLatitude));
    assert_eq!(LayoutError::MissingLatitude.message(), "No latitude coordinate found");
    let no_lon = strings(&["/y", "/temp"]);
    assert_eq!(coordinate_paths(&no_lon), Err(LayoutError::MissingLongitude));
    assert_eq!(LayoutError::MissingLongitude.message(), "No longitude coordinate found");
}

#[test]
fn dataset_needs_a_data_variable() {
    let only_coords = strings(&["/lat", "/lon", "/time"]);
    assert_eq!(dataset_variables(&only_coords), Err(LayoutError::NoDataVariables));
    assert_eq!(LayoutError::NoDataVariables.message(), "No data variables found in zarr store");
    let with_data = strings(&["/lat", "/lon", "/burned_area"]);
    assert_eq!(dataset_variables(&with_data), Ok(vec!["/burned_area".to_string()]));
}
