//! Which arrays of a store are coordinates and which are data variables, and
//! which axes of a variable are latitude and longitude.
use vstd::prelude::*;

verus! {

/// Views of a list of strings.
pub open spec fn string_views(strings: Seq<String>) -> Seq<Seq<char>> {
    strings.map_values(|s: String| s@)
}

/// The path of a top-level array: `/` followed by its name.
pub open spec fn slash_path(name: Seq<char>) -> Seq<char> {
    seq!['/'] + name
}

/// The path of the first of `names` that is an array of `arrays`.
pub open spec fn first_present_path(arrays: Seq<Seq<char>>, names: Seq<Seq<char>>) -> Option<Seq<char>>
    decreases names.len(),
{
    if names.len() == 0 {
        None
    } else if arrays.contains(slash_path(names[0])) {
        Some(slash_path(names[0]))
    } else {
        first_present_path(arrays, names.drop_first())
    }
}

/// `s` without its leading `/` characters.
pub open spec fn strip_leading_slashes(s: Seq<char>) -> Seq<char>
    decreases s.len(),
{
    if s.len() > 0 && s[0] == '/' {
        strip_leading_slashes(s.drop_first())
    } else {
        s
    }
}

/// What `str::to_lowercase` returns for a string.
pub uninterp spec fn lowercase(s: Seq<char>) -> Seq<char>;

/// Names of arrays that hold coordinates rather than data.
pub open spec fn coordinate_names() -> Seq<Seq<char>> {
    seq![
        "lat"@,
        "latitude"@,
        "lon"@,
        "longitude"@,
        "x"@,
        "y"@,
        "time"@,
        "level"@,
        "crs"@,
        "spatial_ref"@,
        "year"@,
        "month"@,
    ]
}

/// An array path names a data variable: its name, without leading slashes and
/// in lower case, is not a coordinate name.
pub open spec fn is_data_variable(path: Seq<char>) -> bool {
    !coordinate_names().contains(lowercase(strip_leading_slashes(path)))
}

/// The data variables among `arrays`, in order.
pub open spec fn data_variables(arrays: Seq<Seq<char>>) -> Seq<Seq<char>>
    decreases arrays.len(),
{
    if arrays.len() == 0 {
        Seq::empty()
    } else if is_data_variable(arrays.last()) {
        data_variables(arrays.drop_last()).push(arrays.last())
    } else {
        data_variables(arrays.drop_last())
    }
}

/// `str::to_lowercase`: the string with every character mapped to lower case.
#[verifier::external_body]
fn to_lowercase(s: &str) -> (r: String)
    ensures
        r@ == lowercase(s@),
{
    s.to_lowercase()
}

/// The path of the first of `names` that is an array of the store.
pub fn find_coord_array(arrays: &[String], names: &[&str]) -> (r: Option<String>)
    ensures
        r matches Some(p) ==> first_present_path(string_views(arrays@), names@.map_values(|n: &str| n@)) == Some(p@),
        r is None ==> first_present_path(string_views(arrays@), names@.map_values(|n: &str| n@)) is None,
{
    let ghost all = string_views(arrays@);
    let ghost wanted = names@.map_values(|n: &str| n@);
    let mut i: usize = 0;
    assert(wanted.skip(0) == wanted);
    while i < names.len()
        invariant
            i <= names@.len(),
            all == string_views(arrays@),
            wanted == names@.map_values(|n: &str| n@),
            first_present_path(all, wanted) == first_present_path(all, wanted.skip(i as int)),
        decreases names.len() - i,
    {
        let mut path = String::from_str("/");
        path.append(names[i]);
        proof {
            reveal_strlit("/");
            assert(path@ == slash_path(wanted[i as int]));
            assert(wanted.skip(i as int).drop_first() == wanted.skip(i + 1));
            assert(wanted.skip(i as int)[0] == wanted[i as int]);
        }
        let mut k: usize = 0;
        while k < arrays.len()
            invariant
                k <= arrays@.len(),
                all == string_views(arrays@),
                forall|j: int| 0 <= j < k ==> all[j] != path@,
                i < wanted.len(),
                first_present_path(all, wanted) == first_present_path(all, wanted.skip(i as int)),
                wanted.skip(i as int)[0] == wanted[i as int],
                wanted.skip(i as int).len() > 0,
                path@ == slash_path(wanted[i as int]),
                wanted == names@.map_values(|n: &str| n@),
            decreases arrays.len() - k,
        {
            if arrays[k] == path {
                proof {
                    assert(all[k as int] == path@);
                    assert(all.contains(path@));
                    assert(first_present_path(all, wanted.skip(i as int)) == Some(path@));
                }
                return Some(path);
            }
            k = k + 1;
        }
        proof {
            assert(!all.contains(path@));
        }
        i = i + 1;
    }
    proof {
        assert(wanted.skip(i as int).len() == 0);
    }
    None
}

/// Number of leading `/` characters of `s`.
pub(crate) fn leading_slashes(s: &str) -> (n: usize)
    ensures
        n <= s@.len(),
        strip_leading_slashes(s@) == s@.skip(n as int),
{
    let len = s.unicode_len();
    let mut n: usize = 0;
    assert(s@.skip(0) == s@);
    while n < len && s.get_char(n) == '/'
        invariant
            len == s@.len(),
            n <= len,
            strip_leading_slashes(s@) == strip_leading_slashes(s@.skip(n as int)),
        decreases len - n,
    {
        assert(s@.skip(n as int).drop_first() == s@.skip(n + 1));
        n = n + 1;
    }
    n
}

/// Whether a lower-case name is a coordinate name.
fn is_coordinate_name(name: &String) -> (b: bool)
    ensures
        b == coordinate_names().contains(name@),
{
    let names = [
        "lat",
        "latitude",
        "lon",
        "longitude",
        "x",
        "y",
        "time",
        "level",
        "crs",
        "spatial_ref",
        "year",
        "month",
    ];
    let mut i: usize = 0;
    while i < 12
        invariant
            i <= 12,
            names@ =~= seq!["lat", "latitude", "lon", "longitude", "x", "y", "time", "level", "crs", "spatial_ref", "year", "month"],
            forall|j: int| 0 <= j < i ==> coordinate_names()[j] != name@,
        decreases 12 - i,
    {
        let candidate = String::from_str(names[i]);
        if *name == candidate {
            proof {
                assert(coordinate_names()[i as int] == name@);
            }
            return true;
        }
        i = i + 1;
    }
    proof {
        assert(coordinate_names().len() == 12);
    }
    false
}

/// The data variables among the arrays of a store: every array whose name,
/// without leading slashes and in lower case, is not a coordinate name.
pub fn find_data_variables(arrays: &[String]) -> (r: Vec<String>)
    ensures
        string_views(r@) == data_variables(string_views(arrays@)),
{
    let ghost all = string_views(arrays@);
    let mut r: Vec<String> = Vec::new();
    let mut i: usize = 0;
    while i < arrays.len()
        invariant
            i <= arrays@.len(),
            all == string_views(arrays@),
            string_views(r@) == data_variables(all.take(i as int)),
        decreases arrays.len() - i,
    {
        let name = arrays[i].as_str();
        let n = leading_slashes(name);
        let base = name.substring_char(n, name.unicode_len());
        let lower = to_lowercase(base);
        let coordinate = is_coordinate_name(&lower);
        proof {
            assert(all.take(i + 1).drop_last() == all.take(i as int));
            assert(all.take(i + 1).last() == arrays@[i as int]@);
        }
        if !coordinate {
            r.push(arrays[i].clone());
            assert(string_views(r@) == string_views(r@).drop_last().push(r@.last()@));
        }
        i = i + 1;
    }
    assert(all.take(arrays@.len() as int) == all);
    r
}

/// Positions of the longitude and latitude axes of an array.
#[derive(Debug, Clone, Copy, PartialEq, Eq)]
pub struct ArrayMeta {
    pub lon_axis: usize,
    pub lat_axis: usize,
}

/// A dimension name that denotes longitude.
pub open spec fn is_lon_name(s: Seq<char>) -> bool {
    s == "lon"@ || s == "longitude"@ || s == "x"@
}

/// A dimension name that denotes latitude.
pub open spec fn is_lat_name(s: Seq<char>) -> bool {
    s == "lat"@ || s == "latitude"@ || s == "y"@
}

/// Position of the first name that denotes longitude (or latitude, with `lat`).
pub open spec fn first_axis(names: Seq<Seq<char>>, lat: bool) -> Option<int>
    decreases names.len(),
{
    if names.len() == 0 {
        None
    } else {
        match first_axis(names.drop_last(), lat) {
            Some(i) => Some(i),
            None => if (if lat { is_lat_name(names.last()) } else { is_lon_name(names.last()) }) {
                Some(names.len() - 1)
            } else {
                None
            },
        }
    }
}

/// The dimension names of an array, when every dimension has one.
pub open spec fn complete_names(names: Seq<Option<String>>) -> Option<Seq<Seq<char>>> {
    if forall|i: int| 0 <= i < names.len() ==> #[trigger] names[i] is Some {
        Some(names.map_values(|n: Option<String>| n->0@))
    } else {
        None
    }
}

/// The dimension names, if no dimension lacks one.
pub fn complete_dimension_names(names: &Vec<Option<String>>) -> (r: Option<Vec<String>>)
    ensures
        match complete_names(names@) {
            Some(all) => r matches Some(v) && string_views(v@) == all,
            None => r is None,
        },
{
    let mut v: Vec<String> = Vec::new();
    let mut i: usize = 0;
    while i < names.len()
        invariant
            i <= names@.len(),
            forall|j: int| 0 <= j < i ==> #[trigger] names@[j] is Some,
            string_views(v@) == names@.take(i as int).map_values(|n: Option<String>| n->0@),
        decreases names.len() - i,
    {
        match &names[i] {
            Some(name) => {
                v.push(name.clone());
                assert(names@.take(i + 1).map_values(|n: Option<String>| n->0@)
                    == names@.take(i as int).map_values(|n: Option<String>| n->0@).push(names@[i as int]->0@));
                assert(string_views(v@) == string_views(v@).drop_last().push(v@.last()@));
            },
            None => {
                return None;
            },
        }
        i = i + 1;
    }
    assert(names@.take(names@.len() as int) == names@);
    Some(v)
}

impl ArrayMeta {
    /// Finds the longitude axis (named `lon`, `longitude` or `x`) and the latitude
    /// axis (named `lat`, `latitude` or `y`) among the dimension names of an array.
    pub fn from_dimension_names(names: &Vec<String>) -> (r: Option<ArrayMeta>)
        ensures
            match (first_axis(string_views(names@), false), first_axis(string_views(names@), true)) {
                (Some(lon), Some(lat)) => r == Some(ArrayMeta { lon_axis: lon as usize, lat_axis: lat as usize }),
                _ => r is None,
            },
    {
        let lon_axis = axis_position(names, false);
        let lat_axis = axis_position(names, true);
        match (lon_axis, lat_axis) {
            (Some(lon_axis), Some(lat_axis)) => Some(ArrayMeta { lon_axis, lat_axis }),
            _ => None,
        }
    }
}

/// Position of the first dimension name that denotes latitude (`lat`) or longitude.
fn axis_position(names: &Vec<String>, lat: bool) -> (r: Option<usize>)
    ensures
        match first_axis(string_views(names@), lat) {
            Some(i) => r == Some(i as usize),
            None => r is None,
        },
{
    let ghost all = string_views(names@);
    let mut i: usize = 0;
    while i < names.len()
        invariant
            i <= names@.len(),
            all == string_views(names@),
            first_axis(all.take(i as int), lat) is None,
        decreases names.len() - i,
    {
        let name = &names[i];
        let found = if lat {
            *name == String::from_str("lat") || *name == String::from_str("latitude") || *name == String::from_str("y")
        } else {
            *name == String::from_str("lon") || *name == String::from_str("longitude") || *name == String::from_str("x")
        };
        proof {
            assert(all.take(i + 1).drop_last() == all.take(i as int));
            assert(all.take(i + 1).last() == name@);
        }
        if found {
            proof {
                lemma_first_axis_prefix(all, lat, i + 1);
            }
            return Some(i);
        }
        i = i + 1;
    }
    assert(all.take(names@.len() as int) == all);
    None
}

/// Once found in a prefix, the first axis stays where it was found.
proof fn lemma_first_axis_prefix(names: Seq<Seq<char>>, lat: bool, n: int)
    requires
        0 <= n <= names.len(),
        first_axis(names.take(n), lat) is Some,
    ensures
        first_axis(names, lat) == first_axis(names.take(n), lat),
    decreases names.len() - n,
{
    if n < names.len() {
        assert(names.take(n + 1).drop_last() == names.take(n));
        lemma_first_axis_prefix(names, lat, n + 1);
    } else {
        assert(names.take(n) == names);
    }
}

/// Why a store cannot be shown.
#[derive(Debug, Clone, Copy, PartialEq, Eq, Structural)]
pub enum LayoutError {
    /// No array is named like a latitude coordinate.
    MissingLatitude,
    /// No array is named like a longitude coordinate.
    MissingLongitude,
    /// Every array is a coordinate.
    NoDataVariables,
}

impl LayoutError {
    /// The message shown for the error.
    pub fn message(&self) -> (r: &'static str)
        ensures
            r@ == layout_error_message(*self),
    {
        match self {
            LayoutError::MissingLatitude => "No latitude coordinate found",
            LayoutError::MissingLongitude => "No longitude coordinate found",
            LayoutError::NoDataVariables => "No data variables found in zarr store",
        }
    }
}

/// The message shown for a layout error.
pub open spec fn layout_error_message(e: LayoutError) -> Seq<char> {
    match e {
        LayoutError::MissingLatitude => "No latitude coordinate found"@,
        LayoutError::MissingLongitude => "No longitude coordinate found"@,
        LayoutError::NoDataVariables => "No data variables found in zarr store"@,
    }
}

/// Names of a latitude coordinate array, in order of preference.
pub open spec fn latitude_names() -> Seq<Seq<char>> {
    seq!["latitude"@, "lat"@, "y"@]
}

/// Names of a longitude coordinate array, in order of preference.
pub open spec fn longitude_names() -> Seq<Seq<char>> {
    seq!["longitude"@, "lon"@, "x"@]
}

/// The paths of the latitude and longitude coordinate arrays of a store: for
/// each, the first of its names (see `latitude_names`, `longitude_names`) that is
/// an array of the store; latitude is looked for first.
pub fn coordinate_paths(arrays: &[String]) -> (r: Result<(String, String), LayoutError>)
    ensures
        match (
            first_present_path(string_views(arrays@), latitude_names()),
            first_present_path(string_views(arrays@), longitude_names()),
        ) {
            (None, _) => r matches Err(LayoutError::MissingLatitude),
            (Some(_), None) => r matches Err(LayoutError::MissingLongitude),
            (Some(lat), Some(lon)) => r matches Ok(paths) && paths.0@ == lat && paths.1@ == lon,
        },
{
    let lat_names = ["latitude", "lat", "y"];
    let lon_names = ["longitude", "lon", "x"];
    proof {
        reveal_strlit("latitude");
        reveal_strlit("lat");
        reveal_strlit("y");
        reveal_strlit("longitude");
        reveal_strlit("lon");
        reveal_strlit("x");
        assert(lat_names@.map_values(|n: &str| n@) =~= latitude_names());
        assert(lon_names@.map_values(|n: &str| n@) =~= longitude_names());
    }
    let lat = match find_coord_array(arrays, &lat_names) {
        Some(p) => p,
        None => return Err(LayoutError::MissingLatitude),
    };
    let lon = match find_coord_array(arrays, &lon_names) {
        Some(p) => p,
        None => return Err(LayoutError::MissingLongitude),
    };
    Ok((lat, lon))
}

/// The data variables of a store (see `find_data_variables`), refused when there
/// is none.
pub fn dataset_variables(arrays: &[String]) -> (r: Result<Vec<String>, LayoutError>)
    ensures
        data_variables(string_views(arrays@)).len() == 0 ==> r matches Err(LayoutError::NoDataVariables),
        data_variables(string_views(arrays@)).len() > 0 ==> (r matches Ok(v) && string_views(v@)
            == data_variables(string_views(arrays@))),
{
    let variables = find_data_variables(arrays);
    if variables.len() == 0 {
        Err(LayoutError::NoDataVariables)
    } else {
        Ok(variables)
    }
}

/// Law: the latitude axis is the first dimension named `lat`, `latitude` or `y`,
/// and the longitude axis the first named `lon`, `longitude` or `x`; there is none
/// when no dimension has such a name.
#[verifier::spinoff_prover]
#[verifier::rlimit(30)]
pub proof fn law_axis_names(names: Seq<Seq<char>>)
    ensures
        match first_axis(names, true) {
            Some(i) => {
                &&& 0 <= i < names.len()
                &&& (names[i] == "lat"@ || names[i] == "latitude"@ || names[i] == "y"@)
                &&& forall|j: int| 0 <= j < i ==> !(#[trigger] names[j] == "lat"@ || names[j] == "latitude"@ || names[j] == "y"@)
            },
            None => forall|j: int| 0 <= j < names.len() ==> !(#[trigger] names[j] == "lat"@ || names[j] == "latitude"@ || names[j] == "y"@),
        },
        match first_axis(names, false) {
            Some(i) => {
                &&& 0 <= i < names.len()
                &&& (names[i] == "lon"@ || names[i] == "longitude"@ || names[i] == "x"@)
                &&& forall|j: int| 0 <= j < i ==> !(#[trigger] names[j] == "lon"@ || names[j] == "longitude"@ || names[j] == "x"@)
            },
            None => forall|j: int| 0 <= j < names.len() ==> !(#[trigger] names[j] == "lon"@ || names[j] == "longitude"@ || names[j] == "x"@),
        },
    decreases names.len(),
{
    if names.len() > 0 {
        let d = names.drop_last();
        law_axis_names(d);
        assert forall|j: int| 0 <= j < d.len() implies d[j] == names[j] by {}
    }
}

/// Law: the latitude coordinate array is `/latitude` if the store has it, else
/// `/lat`, else `/y`; the longitude one is `/longitude`, else `/lon`, else `/x`;
/// there is none when the store has none of them.
#[verifier::spinoff_prover]
#[verifier::rlimit(30)]
pub proof fn law_coordinate_name_preference(arrays: Seq<Seq<char>>)
    ensures
        first_present_path(arrays, latitude_names()) == if arrays.contains("/latitude"@) {
            Some("/latitude"@)
        } else if arrays.contains("/lat"@) {
            Some("/lat"@)
        } else if arrays.contains("/y"@) {
            Some("/y"@)
        } else {
            None
        },
        first_present_path(arrays, longitude_names()) == if arrays.contains("/longitude"@) {
            Some("/longitude"@)
        } else if arrays.contains("/lon"@) {
            Some("/lon"@)
        } else if arrays.contains("/x"@) {
            Some("/x"@)
        } else {
            None
        },
{
    reveal_strlit("latitude");
    reveal_strlit("lat");
    reveal_strlit("y");
    reveal_strlit("longitude");
    reveal_strlit("lon");
    reveal_strlit("x");
    reveal_strlit("/latitude");
    reveal_strlit("/lat");
    reveal_strlit("/y");
    reveal_strlit("/longitude");
    reveal_strlit("/lon");
    reveal_strlit("/x");
    reveal_with_fuel(first_present_path, 4);
    let lat = latitude_names();
    let lon = longitude_names();
    assert(slash_path(lat[0]) =~= "/latitude"@);
    assert(slash_path(lat[1]) =~= "/lat"@);
    assert(slash_path(lat[2]) =~= "/y"@);
    assert(slash_path(lon[0]) =~= "/longitude"@);
    assert(slash_path(lon[1]) =~= "/lon"@);
    assert(slash_path(lon[2]) =~= "/x"@);
    assert(lat.drop_first() =~= seq!["lat"@, "y"@]);
    assert(lat.drop_first().drop_first() =~= seq!["y"@]);
    assert(lat.drop_first().drop_first().drop_first() =~= Seq::<Seq<char>>::empty());
    assert(lon.drop_first() =~= seq!["lon"@, "x"@]);
    assert(lon.drop_first().drop_first() =~= seq!["x"@]);
    assert(lon.drop_first().drop_first().drop_first() =~= Seq::<Seq<char>>::empty());
}

/// The coordinate names, one by one.
#[verifier::spinoff_prover]
#[verifier::rlimit(30)]
proof fn lemma_coordinate_names(name: Seq<char>)
    ensures
        coordinate_names().contains(name) <==> (name == "lat"@ || name == "latitude"@ || name == "lon"@
            || name == "longitude"@ || name == "x"@ || name == "y"@ || name == "time"@ || name == "level"@
            || name == "crs"@ || name == "spatial_ref"@ || name == "year"@ || name == "month"@),
{
    let c = coordinate_names();
    assert(c[0] == "lat"@);
    assert(c[1] == "latitude"@);
    assert(c[2] == "lon"@);
    assert(c[3] == "longitude"@);
    assert(c[4] == "x"@);
    assert(c[5] == "y"@);
    assert(c[6] == "time"@);
    assert(c[7] == "level"@);
    assert(c[8] == "crs"@);
    assert(c[9] == "spatial_ref"@);
    assert(c[10] == "year"@);
    assert(c[11] == "month"@);
    if c.contains(name) {
        let i = choose|i: int| 0 <= i < c.len() && c[i] == name;
        assert(0 <= i < 12);
    }
}

/// Law: an array is listed as a data variable exactly when it is an array of the
/// store whose name, without leading slashes and in lower case, is none of `lat`,
/// `latitude`, `lon`, `longitude`, `x`, `y`, `time`, `level`, `crs`,
/// `spatial_ref`, `year` and `month`.
#[verifier::spinoff_prover]
#[verifier::rlimit(30)]
pub proof fn law_data_variable_membership(arrays: Seq<Seq<char>>, p: Seq<char>)
    ensures
        data_variables(arrays).contains(p) <==> arrays.contains(p) && !({
            let name = lowercase(strip_leading_slashes(p));
            name == "lat"@ || name == "latitude"@ || name == "lon"@ || name == "longitude"@ || name == "x"@
                || name == "y"@ || name == "time"@ || name == "level"@ || name == "crs"@ || name == "spatial_ref"@
                || name == "year"@ || name == "month"@
        }),
    decreases arrays.len(),
{
    lemma_coordinate_names(lowercase(strip_leading_slashes(p)));
    if arrays.len() > 0 {
        let d = arrays.drop_last();
        let last = arrays.last();
        law_data_variable_membership(d, p);
        let prev = data_variables(d);
        assert(arrays =~= d.push(last));
        assert(arrays.contains(p) <==> (d.contains(p) || last == p)) by {
            if arrays.contains(p) {
                let i = choose|i: int| 0 <= i < arrays.len() && arrays[i] == p;
                if i < d.len() {
                    assert(d[i] == p);
                }
            }
            if d.contains(p) {
                let i = choose|i: int| 0 <= i < d.len() && d[i] == p;
                assert(arrays[i] == p);
            }
            if last == p {
                assert(arrays[arrays.len() - 1] == p);
            }
        }
        if is_data_variable(last) {
            assert(data_variables(arrays) == prev.push(last));
            assert(prev.push(last).contains(p) <==> (prev.contains(p) || last == p)) by {
                if prev.push(last).contains(p) {
                    let i = choose|i: int| 0 <= i < prev.push(last).len() && prev.push(last)[i] == p;
                    if i < prev.len() {
                        assert(prev[i] == p);
                    }
                }
                if prev.contains(p) {
                    let i = choose|i: int| 0 <= i < prev.len() && prev[i] == p;
                    assert(prev.push(last)[i] == p);
                }
                if last == p {
                    assert(prev.push(last)[prev.len() as int] == p);
                }
            }
        }
    }
}

/// Law: stripping leading slashes removes a run of `/` from the front and keeps
/// the rest, which does not start with `/`.
pub proof fn law_strip_leading_slashes(s: Seq<char>)
    ensures
        strip_leading_slashes(s).len() <= s.len(),
        strip_leading_slashes(s) == s.skip(s.len() - strip_leading_slashes(s).len()),
        strip_leading_slashes(s).len() == 0 || strip_leading_slashes(s)[0] != '/',
        forall|i: int| 0 <= i < s.len() - strip_leading_slashes(s).len() ==> #[trigger] s[i] == '/',
    decreases s.len(),
{
    if s.len() > 0 && s[0] == '/' {
        let t = s.drop_first();
        law_strip_leading_slashes(t);
        assert(s.skip(s.len() - strip_leading_slashes(s).len()) =~= t.skip(t.len() - strip_leading_slashes(t).len()));
        assert forall|i: int| 0 <= i < s.len() - strip_leading_slashes(s).len() implies #[trigger] s[i] == '/' by {
            if i > 0 {
                assert(s[i] == t[i - 1]);
            }
        }
    } else {
        assert(s.skip(0) =~= s);
    }
}

} // verus!
