//! Versions of the app as the update server reports them (`1.2.3`), how two
//! of them compare, and what a report means for the running version.
use vstd::prelude::*;
use core::cmp::Ordering;
use crate::text_bytes::{utf8_bytes, split_spec, split_str};
use crate::num_text::{parse_u32, parse_uint_spec};

verus! {

broadcast use vstd::seq::group_seq_axioms;

/// A version written as numbers separated by dots.
#[derive(Debug, Clone)]
pub struct Version(pub String);

/// What the update server answers: the oldest version still supported and
/// the newest one.
#[derive(Debug)]
pub struct VersionResponse {
    pub min_version: Version,
    pub latest_version: Version,
}

/// What a report of the update server means for the running version.
#[derive(Debug)]
pub enum VersionNotice {
    UpdateRequired(Version),
    UpdateAvailable(Version),
}

/// The dot-separated parts of a version.
pub open spec fn version_parts(v: Seq<char>) -> Seq<Seq<u8>> {
    split_spec(utf8_bytes(v), 0x2e)
}

/// Every part of the version is a `u32`.
pub open spec fn version_is_numeric(v: Seq<char>) -> bool {
    forall|k: int|
        0 <= k < version_parts(v).len() ==> (#[trigger] parse_uint_spec(
            version_parts(v)[k],
            10,
            u32::MAX as nat,
        )) is Some
}

/// The numbers of a version's parts.
pub open spec fn version_numbers(v: Seq<char>) -> Seq<nat> {
    Seq::new(
        version_parts(v).len(),
        |k: int| parse_uint_spec(version_parts(v)[k], 10, u32::MAX as nat)->0,
    )
}

/// Compares two lists of numbers from position `i` on, over the positions
/// both have; the first difference decides.
pub open spec fn compare_numbers(a: Seq<nat>, b: Seq<nat>, i: int) -> Ordering
    decreases a.len() - i,
{
    if i < 0 || i >= a.len() || i >= b.len() {
        Ordering::Equal
    } else if a[i] < b[i] {
        Ordering::Less
    } else if a[i] > b[i] {
        Ordering::Greater
    } else {
        compare_numbers(a, b, i + 1)
    }
}

fn version_values(v: &Version) -> (r: Vec<u32>)
    requires
        version_is_numeric(v.0@),
    ensures
        r@.len() == version_numbers(v.0@).len(),
        forall|k: int| 0 <= k < r@.len() ==> r@[k] as nat == #[trigger] version_numbers(v.0@)[k],
{
    let parts = split_str(v.0.as_str(), 0x2e);
    let mut values: Vec<u32> = Vec::new();
    let mut k: usize = 0;
    while k < parts.len()
        invariant
            k <= parts@.len() == version_parts(v.0@).len(),
            forall|m: int|
                0 <= m < parts@.len() ==> utf8_bytes((#[trigger] parts@[m])@) == version_parts(
                    v.0@,
                )[m],
            version_is_numeric(v.0@),
            values@.len() == k,
            forall|m: int| 0 <= m < k ==> values@[m] as nat == #[trigger] version_numbers(v.0@)[m],
        decreases parts@.len() - k,
    {
        assert(parse_uint_spec(version_parts(v.0@)[k as int], 10, u32::MAX as nat) is Some);
        let x = parse_u32(parts[k].as_str()).unwrap();
        values.push(x);
        k = k + 1;
    }
    values
}

/// Where two lists of numbers first differ: `None` when they agree on every
/// position both have, else whether the first is smaller there.
fn first_difference(a: &Vec<u32>, b: &Vec<u32>, na: Ghost<Seq<nat>>, nb: Ghost<Seq<nat>>) -> (r: Option<bool>)
    requires
        a@.len() == na@.len(),
        b@.len() == nb@.len(),
        forall|k: int| 0 <= k < a@.len() ==> a@[k] == #[trigger] na@[k],
        forall|k: int| 0 <= k < b@.len() ==> b@[k] == #[trigger] nb@[k],
    ensures
        r is None <==> compare_numbers(na@, nb@, 0) is Equal,
        r == Some(true) <==> compare_numbers(na@, nb@, 0) is Less,
        r == Some(false) <==> compare_numbers(na@, nb@, 0) is Greater,
{
    let mut i: usize = 0;
    let ghost mut gi: int = 0;
    while i < a.len() && i < b.len()
        invariant
            gi == i,
            i <= a@.len(),
            i <= b@.len(),
            a@.len() == na@.len(),
            b@.len() == nb@.len(),
            forall|k: int| 0 <= k < a@.len() ==> a@[k] == #[trigger] na@[k],
            forall|k: int| 0 <= k < b@.len() ==> b@[k] == #[trigger] nb@[k],
            compare_numbers(na@, nb@, 0) == compare_numbers(na@, nb@, gi),
        decreases a@.len() - i,
    {
        assert(na@[gi] == a@[gi] && nb@[gi] == b@[gi]);
        if a[i] < b[i] {
            return Some(true);
        } else if a[i] > b[i] {
            return Some(false);
        }
        i = i + 1;
        proof {
            gi = gi + 1;
        }
    }
    None
}

/// Compares two versions part by part over the parts both have; the first
/// part that differs decides. Every part must be a number.
pub fn compare_versions(version_a: &Version, version_b: &Version) -> (r: Ordering)
    requires
        version_is_numeric(version_a.0@),
        version_is_numeric(version_b.0@),
    ensures
        r == compare_numbers(version_numbers(version_a.0@), version_numbers(version_b.0@), 0),
{
    let current = version_values(version_a);
    let min = version_values(version_b);
    match first_difference(
        &current,
        &min,
        Ghost(version_numbers(version_a.0@)),
        Ghost(version_numbers(version_b.0@)),
    ) {
        None => Ordering::Equal,
        Some(true) => Ordering::Less,
        Some(false) => Ordering::Greater,
    }
}

/// What a report of the update server means for the running version: an
/// update is required when it is older than the oldest supported version,
/// else one is available when it is older than the newest version.
pub fn version_notice(current_version: &Version, version_response: VersionResponse) -> (r: Option<
    VersionNotice,
>)
    requires
        version_is_numeric(current_version.0@),
        version_is_numeric(version_response.min_version.0@),
        version_is_numeric(version_response.latest_version.0@),
    ensures
        ({
            let cur = version_numbers(current_version.0@);
            let to_min = compare_numbers(cur, version_numbers(version_response.min_version.0@), 0);
            let to_latest = compare_numbers(
                cur,
                version_numbers(version_response.latest_version.0@),
                0,
            );
            if to_min is Less {
                r matches Some(VersionNotice::UpdateRequired(v)) && v.0@
                    == version_response.min_version.0@
            } else if to_latest is Less {
                r matches Some(VersionNotice::UpdateAvailable(v)) && v.0@
                    == version_response.latest_version.0@
            } else {
                r is None
            }
        }),
{
    let to_latest = compare_versions(current_version, &version_response.latest_version);
    let to_min = compare_versions(current_version, &version_response.min_version);
    match (to_latest, to_min) {
        (_, Ordering::Less) => Some(VersionNotice::UpdateRequired(version_response.min_version)),
        (Ordering::Less, _) => Some(VersionNotice::UpdateAvailable(version_response.latest_version)),
        _ => None,
    }
}

proof fn lemma_compare_numbers_swap(a: Seq<nat>, b: Seq<nat>, i: int)
    requires
        0 <= i,
    ensures
        compare_numbers(a, b, i) is Less <==> compare_numbers(b, a, i) is Greater,
        compare_numbers(a, b, i) is Equal <==> compare_numbers(b, a, i) is Equal,
    decreases a.len() + b.len() - i,
{
    if i < a.len() && i < b.len() {
        lemma_compare_numbers_swap(a, b, i + 1);
    }
}

proof fn lemma_compare_numbers_same(a: Seq<nat>, i: int)
    requires
        0 <= i,
    ensures
        compare_numbers(a, a, i) is Equal,
    decreases a.len() - i,
{
    if i < a.len() {
        lemma_compare_numbers_same(a, i + 1);
    }
}

/// A version compares equal to itself, and swapping two versions swaps
/// "older" and "newer".
pub proof fn law_compare_versions_swap(a: Seq<char>, b: Seq<char>)
    ensures
        compare_numbers(version_numbers(a), version_numbers(a), 0) is Equal,
        compare_numbers(version_numbers(a), version_numbers(b), 0) is Less <==> compare_numbers(
            version_numbers(b),
            version_numbers(a),
            0,
        ) is Greater,
        compare_numbers(version_numbers(a), version_numbers(b), 0) is Equal <==> compare_numbers(
            version_numbers(b),
            version_numbers(a),
            0,
        ) is Equal,
{
    lemma_compare_numbers_swap(version_numbers(a), version_numbers(b), 0);
    lemma_compare_numbers_same(version_numbers(a), 0);
}

} // verus!
