//! United States state-name normalization.
//!
//! Maps a free-text state name or postal abbreviation, case-insensitively
//! and ignoring surrounding whitespace, to the state's position in the
//! fixed table callers index their per-state data by.

use vstd::prelude::*;
use vstd::string::StringSliceAdditionalSpecFns;

verus! {

/// How many states the table holds.
pub const STATE_COUNT: usize = 50;

/// What `str::trim` returns, as a function of the characters alone.
pub uninterp spec fn trimmed_of(s: Seq<char>) -> Seq<char>;

/// Relies on str::trim: removes leading and trailing whitespace, so the
/// result is never longer than the input and an empty input stays empty.
#[verifier::external_body]
fn trim_text<'a>(s: &'a str) -> (r: &'a str)
    ensures
        r@ == trimmed_of(s@),
        r@.len() <= s@.len(),
        s@.len() == 0 ==> r@.len() == 0,
{
    s.trim()
}

/// ASCII upper-case letters fold to lower case; every other byte stands.
pub open spec fn fold_byte(b: u8) -> u8 {
    if 65 <= b <= 90 {
        (b + 32) as u8
    } else {
        b
    }
}

/// Byte-wise ASCII case-insensitive equality of two UTF-8 byte sequences.
pub open spec fn eq_ignoring_ascii_case(a: Seq<u8>, b: Seq<u8>) -> bool {
    a.len() == b.len() && forall|i: int| 0 <= i < a.len() ==> fold_byte(a[i]) == fold_byte(b[i])
}

/// Case-insensitive ASCII comparison of two strings, byte for byte.
pub fn ascii_ci_eq(a: &str, b: &str) -> (r: bool)
    ensures
        r == eq_ignoring_ascii_case(a.spec_bytes(), b.spec_bytes()),
{
    let ab = a.as_bytes();
    let bb = b.as_bytes();
    let n = ab.len();
    if n != bb.len() {
        return false;
    }
    let mut i: usize = 0;
    #[verifier::loop_isolation(false)]
    while i < n
        invariant
            i <= n,
            forall|m: int| 0 <= m < i ==> fold_byte(ab@[m]) == fold_byte(bb@[m]),
        decreases n - i,
    {
        let x = ab[i];
        let y = bb[i];
        let fx = if x >= 65 && x <= 90 {
            x + 32
        } else {
            x
        };
        let fy = if y >= 65 && y <= 90 {
            y + 32
        } else {
            y
        };
        if fx != fy {
            proof {
                assert(fold_byte(ab@[i as int]) != fold_byte(bb@[i as int]));
            }
            return false;
        }
        i = i + 1;
    }
    true
}

/// The full name of state `i`, in table order.
pub open spec fn state_name_at(i: int) -> Seq<char> {
    if i == 0 {
        "Alabama"@
    } else if i == 1 {
        "Alaska"@
    } else if i == 2 {
        "Arizona"@
    } else if i == 3 {
        "Arkansas"@
    } else if i == 4 {
        "California"@
    } else if i == 5 {
        "Colorado"@
    } else if i == 6 {
        "Connecticut"@
    } else if i == 7 {
        "Delaware"@
    } else if i == 8 {
        "Florida"@
    } else if i == 9 {
        "Georgia"@
    } else if i == 10 {
        "Hawaii"@
    } else if i == 11 {
        "Idaho"@
    } else if i == 12 {
        "Illinois"@
    } else if i == 13 {
        "Indiana"@
    } else if i == 14 {
        "Iowa"@
    } else if i == 15 {
        "Kansas"@
    } else if i == 16 {
        "Kentucky"@
    } else if i == 17 {
        "Louisiana"@
    } else if i == 18 {
        "Maine"@
    } else if i == 19 {
        "Maryland"@
    } else if i == 20 {
        "Massachusetts"@
    } else if i == 21 {
        "Michigan"@
    } else if i == 22 {
        "Minnesota"@
    } else if i == 23 {
        "Mississippi"@
    } else if i == 24 {
        "Missouri"@
    } else if i == 25 {
        "Montana"@
    } else if i == 26 {
        "Nebraska"@
    } else if i == 27 {
        "Nevada"@
    } else if i == 28 {
        "New Hampshire"@
    } else if i == 29 {
        "New Jersey"@
    } else if i == 30 {
        "New Mexico"@
    } else if i == 31 {
        "New York"@
    } else if i == 32 {
        "North Carolina"@
    } else if i == 33 {
        "North Dakota"@
    } else if i == 34 {
        "Ohio"@
    } else if i == 35 {
        "Oklahoma"@
    } else if i == 36 {
        "Oregon"@
    } else if i == 37 {
        "Pennsylvania"@
    } else if i == 38 {
        "Rhode Island"@
    } else if i == 39 {
        "South Carolina"@
    } else if i == 40 {
        "South Dakota"@
    } else if i == 41 {
        "Tennessee"@
    } else if i == 42 {
        "Texas"@
    } else if i == 43 {
        "Utah"@
    } else if i == 44 {
        "Vermont"@
    } else if i == 45 {
        "Virginia"@
    } else if i == 46 {
        "Washington"@
    } else if i == 47 {
        "West Virginia"@
    } else if i == 48 {
        "Wisconsin"@
    } else if i == 49 {
        "Wyoming"@
    } else {
        Seq::empty()
    }
}

/// The postal abbreviation of state `i`, in table order.
pub open spec fn state_abbr_at(i: int) -> Seq<char> {
    if i == 0 {
        "AL"@
    } else if i == 1 {
        "AK"@
    } else if i == 2 {
        "AZ"@
    } else if i == 3 {
        "AR"@
    } else if i == 4 {
        "CA"@
    } else if i == 5 {
        "CO"@
    } else if i == 6 {
        "CT"@
    } else if i == 7 {
        "DE"@
    } else if i == 8 {
        "FL"@
    } else if i == 9 {
        "GA"@
    } else if i == 10 {
        "HI"@
    } else if i == 11 {
        "ID"@
    } else if i == 12 {
        "IL"@
    } else if i == 13 {
        "IN"@
    } else if i == 14 {
        "IA"@
    } else if i == 15 {
        "KS"@
    } else if i == 16 {
        "KY"@
    } else if i == 17 {
        "LA"@
    } else if i == 18 {
        "ME"@
    } else if i == 19 {
        "MD"@
    } else if i == 20 {
        "MA"@
    } else if i == 21 {
        "MI"@
    } else if i == 22 {
        "MN"@
    } else if i == 23 {
        "MS"@
    } else if i == 24 {
        "MO"@
    } else if i == 25 {
        "MT"@
    } else if i == 26 {
        "NE"@
    } else if i == 27 {
        "NV"@
    } else if i == 28 {
        "NH"@
    } else if i == 29 {
        "NJ"@
    } else if i == 30 {
        "NM"@
    } else if i == 31 {
        "NY"@
    } else if i == 32 {
        "NC"@
    } else if i == 33 {
        "ND"@
    } else if i == 34 {
        "OH"@
    } else if i == 35 {
        "OK"@
    } else if i == 36 {
        "OR"@
    } else if i == 37 {
        "PA"@
    } else if i == 38 {
        "RI"@
    } else if i == 39 {
        "SC"@
    } else if i == 40 {
        "SD"@
    } else if i == 41 {
        "TN"@
    } else if i == 42 {
        "TX"@
    } else if i == 43 {
        "UT"@
    } else if i == 44 {
        "VT"@
    } else if i == 45 {
        "VA"@
    } else if i == 46 {
        "WA"@
    } else if i == 47 {
        "WV"@
    } else if i == 48 {
        "WI"@
    } else if i == 49 {
        "WY"@
    } else {
        Seq::empty()
    }
}

/// The full name of state `i`.
pub fn state_name(i: usize) -> (r: &'static str)
    requires
        i < STATE_COUNT,
    ensures
        r@ == state_name_at(i as int),
{
    match i {
        0 => "Alabama",
        1 => "Alaska",
        2 => "Arizona",
        3 => "Arkansas",
        4 => "California",
        5 => "Colorado",
        6 => "Connecticut",
        7 => "Delaware",
        8 => "Florida",
        9 => "Georgia",
        10 => "Hawaii",
        11 => "Idaho",
        12 => "Illinois",
        13 => "Indiana",
        14 => "Iowa",
        15 => "Kansas",
        16 => "Kentucky",
        17 => "Louisiana",
        18 => "Maine",
        19 => "Maryland",
        20 => "Massachusetts",
        21 => "Michigan",
        22 => "Minnesota",
        23 => "Mississippi",
        24 => "Missouri",
        25 => "Montana",
        26 => "Nebraska",
        27 => "Nevada",
        28 => "New Hampshire",
        29 => "New Jersey",
        30 => "New Mexico",
        31 => "New York",
        32 => "North Carolina",
        33 => "North Dakota",
        34 => "Ohio",
        35 => "Oklahoma",
        36 => "Oregon",
        37 => "Pennsylvania",
        38 => "Rhode Island",
        39 => "South Carolina",
        40 => "South Dakota",
        41 => "Tennessee",
        42 => "Texas",
        43 => "Utah",
        44 => "Vermont",
        45 => "Virginia",
        46 => "Washington",
        47 => "West Virginia",
        48 => "Wisconsin",
        49 => "Wyoming",
        _ => "",
    }
}

/// The postal abbreviation of state `i`.
pub fn state_abbr(i: usize) -> (r: &'static str)
    requires
        i < STATE_COUNT,
    ensures
        r@ == state_abbr_at(i as int),
{
    match i {
        0 => "AL",
        1 => "AK",
        2 => "AZ",
        3 => "AR",
        4 => "CA",
        5 => "CO",
        6 => "CT",
        7 => "DE",
        8 => "FL",
        9 => "GA",
        10 => "HI",
        11 => "ID",
        12 => "IL",
        13 => "IN",
        14 => "IA",
        15 => "KS",
        16 => "KY",
        17 => "LA",
        18 => "ME",
        19 => "MD",
        20 => "MA",
        21 => "MI",
        22 => "MN",
        23 => "MS",
        24 => "MO",
        25 => "MT",
        26 => "NE",
        27 => "NV",
        28 => "NH",
        29 => "NJ",
        30 => "NM",
        31 => "NY",
        32 => "NC",
        33 => "ND",
        34 => "OH",
        35 => "OK",
        36 => "OR",
        37 => "PA",
        38 => "RI",
        39 => "SC",
        40 => "SD",
        41 => "TN",
        42 => "TX",
        43 => "UT",
        44 => "VT",
        45 => "VA",
        46 => "WA",
        47 => "WV",
        48 => "WI",
        49 => "WY",
        _ => "",
    }
}

/// The trimmed input equals state `i`'s name or abbreviation, ignoring
/// ASCII case.
pub open spec fn state_matches(s: Seq<char>, i: int) -> bool {
    ||| eq_ignoring_ascii_case(
        vstd::utf8::encode_utf8(trimmed_of(s)),
        vstd::utf8::encode_utf8(state_name_at(i)),
    )
    ||| eq_ignoring_ascii_case(
        vstd::utf8::encode_utf8(trimmed_of(s)),
        vstd::utf8::encode_utf8(state_abbr_at(i)),
    )
}

/// Position of the first state whose name or abbreviation matches the
/// trimmed input case-insensitively; an input that trims to nothing, or
/// matches no state, yields nothing.
pub fn normalize_us_state_index(state_text: &str) -> (r: Option<usize>)
    ensures
        r matches Some(i) ==> i < STATE_COUNT && state_matches(state_text@, i as int) && (forall|
            j: int,
        |
            0 <= j < i ==> !state_matches(state_text@, j)),
        r is None ==> trimmed_of(state_text@).len() == 0 || (forall|j: int|
            0 <= j < STATE_COUNT ==> !state_matches(state_text@, j)),
        trimmed_of(state_text@).len() == 0 ==> r is None,
{
    let trimmed = trim_text(state_text);
    if trimmed.is_empty() {
        return None;
    }
    let mut i: usize = 0;
    #[verifier::loop_isolation(false)]
    while i < STATE_COUNT
        invariant
            i <= STATE_COUNT,
            forall|j: int| 0 <= j < i ==> !state_matches(state_text@, j),
        decreases STATE_COUNT - i,
    {
        let name_hit = ascii_ci_eq(trimmed, state_name(i));
        let abbr_hit = ascii_ci_eq(trimmed, state_abbr(i));
        if name_hit || abbr_hit {
            return Some(i);
        }
        i = i + 1;
    }
    None
}

} // verus!
