use vstd::prelude::*;
use vstd::string::StringExecFns;
use crates_io_api::Error as FetchError;

verus! {

/// An instant as chrono counts it: whole seconds since the Unix epoch, and
/// nanoseconds within that second (at or above 10^9 only in a leap second).
#[derive(Clone, Copy, Debug, PartialEq, Eq, Structural)]
pub struct Timestamp {
    pub secs: i64,
    pub nanos: u32,
}

/// `a` is strictly earlier than `b`.
pub open spec fn earlier(a: Timestamp, b: Timestamp) -> bool {
    a.secs < b.secs || (a.secs == b.secs && a.nanos < b.nanos)
}

impl Timestamp {
    pub fn is_earlier_than(&self, other: &Timestamp) -> (r: bool)
        ensures
            r == earlier(*self, *other),
    {
        self.secs < other.secs || (self.secs == other.secs && self.nanos < other.nanos)
    }
}

/// One published release of a package: its version number, when it was
/// published, and whether it has been yanked.
#[derive(Debug)]
pub struct VersionRecord {
    pub num: String,
    pub updated_at: Timestamp,
    pub yanked: bool,
}

/// A package pinned to the version chosen for it.
#[derive(Debug)]
pub struct Package {
    pub name: String,
    pub version: String,
}

impl Package {
    /// The lockfile-style line `name = "=version"`.
    pub fn to_line(&self) -> (r: String)
        ensures
            r@ == self.name@ + " = \"="@ + self.version@ + "\""@,
    {
        let mut line = self.name.clone();
        line.append(" = \"=");
        line.append(self.version.as_str());
        line.append("\"");
        line
    }
}

/// The error that a request to the crates.io registry fails with.
#[verifier::external_type_specification]
#[verifier::external_body]
pub struct ExFetchError(FetchError);

#[derive(Debug)]
pub enum Error {
    /// Fetching a package's releases from the registry failed.
    Reqwest(FetchError),
    /// No release of the named package qualifies before the cutoff; the second
    /// field describes its oldest release that is not yanked.
    VersionNotFound(String, String),
}

/// A release may be chosen for `cutoff`: published strictly before it, and not yanked.
pub open spec fn qualifies(v: VersionRecord, cutoff: Timestamp) -> bool {
    earlier(v.updated_at, cutoff) && !v.yanked
}

/// `h[i]` is the newest qualifying release; among equally new ones, the last listed.
pub open spec fn is_newest_qualifying(h: Seq<VersionRecord>, cutoff: Timestamp, i: int) -> bool {
    &&& 0 <= i < h.len()
    &&& qualifies(h[i], cutoff)
    &&& forall|j: int| 0 <= j < i && qualifies(#[trigger] h[j], cutoff) ==> !earlier(h[i].updated_at, h[j].updated_at)
    &&& forall|j: int| i < j < h.len() && qualifies(#[trigger] h[j], cutoff) ==> earlier(h[j].updated_at, h[i].updated_at)
}

/// `h[i]` is the oldest release that is not yanked; among equally old ones, the first listed.
pub open spec fn is_oldest_unyanked(h: Seq<VersionRecord>, i: int) -> bool {
    &&& 0 <= i < h.len()
    &&& !h[i].yanked
    &&& forall|j: int| 0 <= j < i && !(#[trigger] h[j]).yanked ==> earlier(h[i].updated_at, h[j].updated_at)
    &&& forall|j: int| i < j < h.len() && !(#[trigger] h[j]).yanked ==> !earlier(h[j].updated_at, h[i].updated_at)
}

/// Some release in `h` qualifies for `cutoff`.
pub open spec fn has_qualifying(h: Seq<VersionRecord>, cutoff: Timestamp) -> bool {
    exists|i: int| 0 <= i < h.len() && qualifies(#[trigger] h[i], cutoff)
}

/// `v` is the version chosen from `h` for `cutoff`.
pub open spec fn resolves_to(h: Seq<VersionRecord>, cutoff: Timestamp, v: Seq<char>) -> bool {
    exists|i: int| #[trigger] is_newest_qualifying(h, cutoff, i) && h[i].num@ == v
}

/// The text that names a release and the day it was published: `num (YYYY-MM-DD)`.
pub open spec fn release_text(v: VersionRecord) -> Seq<char> {
    v.num@ + " ("@ + calendar_day_of(v.updated_at.secs as int, v.updated_at.nanos as int) + ")"@
}

/// The diagnostic for a history without a qualifying release.
pub open spec fn no_version_text(h: Seq<VersionRecord>, d: Seq<char>) -> bool {
    if exists|i: int| 0 <= i < h.len() && !(#[trigger] h[i]).yanked {
        exists|i: int| #[trigger] is_oldest_unyanked(h, i) && d == release_text(h[i])
    } else {
        d == "no known versions at all?"@
    }
}

/// The error reported for package `name` with history `h`.
pub open spec fn not_found(name: Seq<char>, h: Seq<VersionRecord>, e: Error) -> bool {
    match e {
        Error::VersionNotFound(n, d) => n@ == name && no_version_text(h, d@),
        Error::Reqwest(_) => false,
    }
}

/// The calendar day of an instant, `YYYY-MM-DD`, as chrono writes it.
pub uninterp spec fn calendar_day_of(secs: int, nanos: int) -> Seq<char>;

/// Relies on chrono's `DateTime::<Utc>::from_timestamp` and its `%Y-%m-%d`
/// formatting: the text depends on the instant alone (empty where chrono has
/// no such instant).
#[verifier::external_body]
fn calendar_day(t: &Timestamp) -> (r: String)
    ensures
        r@ == calendar_day_of(t.secs as int, t.nanos as int),
{
    match chrono::DateTime::from_timestamp(t.secs, t.nanos) {
        Some(d) => d.format("%Y-%m-%d").to_string(),
        None => String::new(),
    }
}

/// The calendar day on which a release was published, `YYYY-MM-DD`.
pub fn published_day(v: &VersionRecord) -> (r: String)
    ensures
        r@ == calendar_day_of(v.updated_at.secs as int, v.updated_at.nanos as int),
{
    calendar_day(&v.updated_at)
}


/// Picks for package `name` the newest release in `history` that was published
/// strictly before `cutoff` and is not yanked; fails, describing the oldest
/// release that is not yanked, where there is none.
pub fn resolve_version(name: &str, history: &Vec<VersionRecord>, cutoff: &Timestamp) -> (r: Result<Package, Error>)
    ensures
        r is Ok <==> has_qualifying(history@, *cutoff),
        r matches Ok(p) ==> p.name@ == name@ && resolves_to(history@, *cutoff, p.version@),
        r matches Err(e) ==> not_found(name@, history@, e),
{
    let h = history;
    let n = h.len();
    let mut newest: Option<usize> = None;
    let mut oldest: Option<usize> = None;
    let mut i: usize = 0;
    while i < n
        invariant
            n == h@.len(),
            i <= n,
            newest matches Some(b) ==> b < i && is_newest_qualifying(h@.subrange(0, i as int), *cutoff, b as int),
            newest is None ==> forall|j: int| 0 <= j < i ==> !qualifies(#[trigger] h@[j], *cutoff),
            oldest matches Some(b) ==> b < i && is_oldest_unyanked(h@.subrange(0, i as int), b as int),
            oldest is None ==> forall|j: int| 0 <= j < i ==> (#[trigger] h@[j]).yanked,
        decreases n - i,
    {
        let v = &h[i];
        if v.updated_at.is_earlier_than(cutoff) && !v.yanked {
            match newest {
                Some(b) => {
                    if !v.updated_at.is_earlier_than(&h[b].updated_at) {
                        newest = Some(i);
                    }
                },
                None => {
                    newest = Some(i);
                },
            }
        }
        if !v.yanked {
            match oldest {
                Some(b) => {
                    if v.updated_at.is_earlier_than(&h[b].updated_at) {
                        oldest = Some(i);
                    }
                },
                None => {
                    oldest = Some(i);
                },
            }
        }
        proof {
            let next = h@.subrange(0, i + 1);
            assert forall|j: int| 0 <= j <= i implies next[j] == h@[j] by {}
        }
        i += 1;
    }
    proof {
        assert(h@.subrange(0, n as int) =~= h@);
    }
    match newest {
        Some(b) => {
            let version = h[b].num.clone();
            Ok(Package { name: name.to_owned(), version })
        },
        None => {
            let detail = match oldest {
                Some(b) => {
                    let mut text = h[b].num.clone();
                    text.append(" (");
                    let day = published_day(&h[b]);
                    text.append(day.as_str());
                    text.append(")");
                    text
                },
                None => String::from_str("no known versions at all?"),
            };
            proof {
                if oldest is None {
                    reveal_strlit("no known versions at all?");
                }
            }
            Err(Error::VersionNotFound(name.to_owned(), detail))
        },
    }
}


/// Resolves each name against its history, in order, and stops at the first
/// name without a qualifying release.
pub fn downgrade_histories(
    names: &Vec<String>,
    histories: &Vec<Vec<VersionRecord>>,
    cutoff: &Timestamp,
) -> (r: Result<Vec<Package>, Error>)
    requires
        names@.len() == histories@.len(),
    ensures
        r is Ok <==> forall|k: int| 0 <= k < names@.len() ==> has_qualifying(#[trigger] histories@[k]@, *cutoff),
        r matches Ok(ps) ==> {
            &&& ps@.len() == names@.len()
            &&& forall|k: int| 0 <= k < ps@.len() ==> (#[trigger] ps@[k]).name@ == names@[k]@
                && resolves_to(histories@[k]@, *cutoff, ps@[k].version@)
        },
        r matches Err(e) ==> exists|k: int| {
            &&& 0 <= k < names@.len()
            &&& !has_qualifying(#[trigger] histories@[k]@, *cutoff)
            &&& forall|m: int| 0 <= m < k ==> has_qualifying(#[trigger] histories@[m]@, *cutoff)
            &&& not_found(names@[k]@, histories@[k]@, e)
        },
{
    let mut out: Vec<Package> = Vec::new();
    let mut k: usize = 0;
    while k < names.len()
        invariant
            names@.len() == histories@.len(),
            k <= names@.len(),
            out@.len() == k,
            forall|m: int| 0 <= m < k ==> has_qualifying(#[trigger] histories@[m]@, *cutoff),
            forall|m: int| 0 <= m < k ==> (#[trigger] out@[m]).name@ == names@[m]@
                && resolves_to(histories@[m]@, *cutoff, out@[m].version@),
        decreases names@.len() - k,
    {
        match resolve_version(names[k].as_str(), &histories[k], cutoff) {
            Ok(p) => {
                out.push(p);
            },
            Err(e) => {
                return Err(e);
            },
        }
        k += 1;
    }
    Ok(out)
}

/// The release chosen for a cutoff is published strictly before it and is not yanked.
pub proof fn lemma_resolved_release_qualifies(h: Seq<VersionRecord>, cutoff: Timestamp, v: Seq<char>)
    requires
        resolves_to(h, cutoff, v),
    ensures
        exists|i: int| 0 <= i < h.len() && h[i].num@ == v && earlier(h[i].updated_at, cutoff) && !h[i].yanked,
{
    let i = choose|i: int| #[trigger] is_newest_qualifying(h, cutoff, i) && h[i].num@ == v;
    assert(0 <= i < h.len() && h[i].num@ == v && qualifies(h[i], cutoff));
}

/// At most one release is the newest qualifying one.
pub proof fn lemma_newest_qualifying_unique(h: Seq<VersionRecord>, cutoff: Timestamp, i: int, j: int)
    requires
        is_newest_qualifying(h, cutoff, i),
        is_newest_qualifying(h, cutoff, j),
    ensures
        i == j,
{
    if i < j {
        assert(qualifies(h[j], cutoff));
    } else if j < i {
        assert(qualifies(h[i], cutoff));
    }
}

/// Resolving the same history for the same cutoff twice gives the same version.
pub proof fn lemma_resolution_deterministic(h: Seq<VersionRecord>, cutoff: Timestamp, v1: Seq<char>, v2: Seq<char>)
    requires
        resolves_to(h, cutoff, v1),
        resolves_to(h, cutoff, v2),
    ensures
        v1 == v2,
{
    let i = choose|i: int| #[trigger] is_newest_qualifying(h, cutoff, i) && h[i].num@ == v1;
    let j = choose|j: int| #[trigger] is_newest_qualifying(h, cutoff, j) && h[j].num@ == v2;
    lemma_newest_qualifying_unique(h, cutoff, i, j);
}

/// Of three releases published in increasing order, with the cutoff at the
/// second, the first is chosen where it is not yanked: a release published
/// exactly at the cutoff does not qualify.
pub proof fn lemma_cutoff_excludes_equal_instant(h: Seq<VersionRecord>)
    requires
        h.len() == 3,
        earlier(h[0].updated_at, h[1].updated_at),
        earlier(h[1].updated_at, h[2].updated_at),
        !h[0].yanked,
    ensures
        resolves_to(h, h[1].updated_at, h[0].num@),
{
    assert(is_newest_qualifying(h, h[1].updated_at, 0));
}


/// Decides for package `name` once its releases have been asked for: a failed
/// fetch becomes `Error::Reqwest`, and a fetched history is resolved.
pub fn resolve_fetched(
    name: &str,
    fetched: Result<Vec<VersionRecord>, FetchError>,
    cutoff: &Timestamp,
) -> (r: Result<Package, Error>)
    ensures
        fetched matches Err(e) ==> r matches Err(Error::Reqwest(e2)) && e2 == e,
        fetched matches Ok(h) ==> {
            &&& (r is Ok <==> has_qualifying(h@, *cutoff))
            &&& (r matches Ok(p) ==> p.name@ == name@ && resolves_to(h@, *cutoff, p.version@))
            &&& (r matches Err(e) ==> not_found(name@, h@, e))
        },
{
    match fetched {
        Ok(history) => resolve_version(name, &history, cutoff),
        Err(e) => Err(Error::Reqwest(e)),
    }
}

} // verus!
