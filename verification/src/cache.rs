//! The on-disk version cache: its data, its JSON form, and its migration
//! from the legacy format.
//!
//! The cache file holds `{"versions": [...], "timestamp": "..."}`.  In the
//! current format each entry of `versions` is an object with a `version`
//! string and a `urls` object mapping platform names to download URLs; in
//! the legacy format the entries are bare version strings.  Reading and
//! writing the file itself is the caller's business: this module turns file
//! contents into cache values and back.

use vstd::prelude::*;
use vstd::string::*;
use crate::json::{
    parse_document, quote_json_string, spec_parse_document, spec_quote, view_json, Json, JsonSpec,
};
use crate::platform::{spec_download_url, Platform};
use crate::text::{spec_is_digit, spec_split, spec_udec, split_char, str_eq, u64_to_string};

verus! {

/// One version with its download URL for each platform name.
pub struct VersionInfo {
    /// Version string, e.g. `"4.19.0"`.
    pub version: String,
    /// Download URL for each platform name; keys are expected unique.
    pub urls: Vec<(String, String)>,
}

/// The mathematical shape of a [`VersionInfo`].
pub struct VersionInfoV {
    pub version: Seq<char>,
    pub urls: Seq<(Seq<char>, Seq<char>)>,
}

impl View for VersionInfo {
    type V = VersionInfoV;

    open spec fn view(&self) -> VersionInfoV {
        VersionInfoV { version: self.version@, urls: self.urls.deep_view() }
    }
}

impl DeepView for VersionInfo {
    type V = VersionInfoV;

    open spec fn deep_view(&self) -> VersionInfoV {
        self.view()
    }
}

/// The mathematical shape of a loaded cache.
pub struct CacheV {
    pub infos: Seq<VersionInfoV>,
    pub timestamp: Seq<char>,
}

/// A loaded version cache: the versions with their URLs, and the timestamp
/// the cache was written with.
pub struct VersionCache {
    versions: Vec<VersionInfo>,
    timestamp: String,
}

impl View for VersionCache {
    type V = CacheV;

    closed spec fn view(&self) -> CacheV {
        CacheV { infos: self.versions.deep_view(), timestamp: self.timestamp@ }
    }
}

/// The version strings of `infos`, in order.
pub open spec fn spec_version_strings(infos: Seq<VersionInfoV>) -> Seq<Seq<char>> {
    infos.map_values(|i: VersionInfoV| i.version)
}

/// Whether some member of `infos` carries the version `v`.
pub open spec fn spec_cache_has_version(infos: Seq<VersionInfoV>, v: Seq<char>) -> bool {
    exists|k: int| 0 <= k < infos.len() && infos[k].version == v
}

/// The first member of `infos` carrying the version `v`.
pub open spec fn spec_first_info(infos: Seq<VersionInfoV>, v: Seq<char>) -> Option<VersionInfoV>
    decreases infos.len(),
{
    if infos.len() == 0 {
        None
    } else if infos[0].version == v {
        Some(infos[0])
    } else {
        spec_first_info(infos.drop_first(), v)
    }
}

/// The value under the first occurrence of `key` in `urls`.
pub open spec fn spec_lookup_url(urls: Seq<(Seq<char>, Seq<char>)>, key: Seq<char>) -> Option<
    Seq<char>,
>
    decreases urls.len(),
{
    if urls.len() == 0 {
        None
    } else if urls[0].0 == key {
        Some(urls[0].1)
    } else {
        spec_lookup_url(urls.drop_first(), key)
    }
}

/// The URL the cache holds for `v` on the platform named `key`: looked up in
/// the first member carrying `v`.
pub open spec fn spec_get_download_url(
    infos: Seq<VersionInfoV>,
    v: Seq<char>,
    key: Seq<char>,
) -> Option<Seq<char>> {
    match spec_first_info(infos, v) {
        None => None,
        Some(info) => spec_lookup_url(info.urls, key),
    }
}

proof fn lemma_first_info_step(infos: Seq<VersionInfoV>, v: Seq<char>, i: int)
    requires
        0 <= i < infos.len(),
    ensures
        spec_first_info(infos.subrange(i, infos.len() as int), v) == (if infos[i].version == v {
            Some(infos[i])
        } else {
            spec_first_info(infos.subrange(i + 1, infos.len() as int), v)
        }),
{
    let tail = infos.subrange(i, infos.len() as int);
    assert(tail[0] == infos[i]);
    assert(tail.drop_first() =~= infos.subrange(i + 1, infos.len() as int));
}

proof fn lemma_lookup_url_step(urls: Seq<(Seq<char>, Seq<char>)>, key: Seq<char>, i: int)
    requires
        0 <= i < urls.len(),
    ensures
        spec_lookup_url(urls.subrange(i, urls.len() as int), key) == (if urls[i].0 == key {
            Some(urls[i].1)
        } else {
            spec_lookup_url(urls.subrange(i + 1, urls.len() as int), key)
        }),
{
    let tail = urls.subrange(i, urls.len() as int);
    assert(tail[0] == urls[i]);
    assert(tail.drop_first() =~= urls.subrange(i + 1, urls.len() as int));
}

impl VersionCache {
    /// Wraps `versions` and `timestamp` into a cache value.
    pub fn new(versions: Vec<VersionInfo>, timestamp: String) -> (c: Self)
        ensures
            c@.infos == versions.deep_view(),
            c@.timestamp == timestamp@,
    {
        VersionCache { versions, timestamp }
    }

    /// The version strings the cache holds, in stored order.
    pub fn get_version_strings(&self) -> (r: Vec<String>)
        ensures
            r.deep_view() == spec_version_strings(self@.infos),
    {
        let n = self.versions.len();
        let mut out: Vec<String> = Vec::new();
        let mut i: usize = 0;
        while i < n
            invariant
                0 <= i <= n,
                n == self.versions@.len(),
                out.deep_view() =~= spec_version_strings(self@.infos).subrange(0, i as int),
            decreases n - i,
        {
            proof {
                assert(self@.infos[i as int] == self.versions@[i as int].deep_view());
            }
            let ghost old_dv = out.deep_view();
            out.push(self.versions[i].version.clone());
            proof {
                assert(out.deep_view() =~= old_dv.push(self.versions@[i as int].version@));
                assert(spec_version_strings(self@.infos).subrange(0, i + 1)
                    =~= spec_version_strings(self@.infos).subrange(0, i as int).push(
                    spec_version_strings(self@.infos)[i as int],
                ));
                assert(out.deep_view() =~= spec_version_strings(self@.infos).subrange(0, i + 1));
            }
            i = i + 1;
        }
        assert(out.deep_view() =~= spec_version_strings(self@.infos));
        out
    }

    /// Whether the cache holds `version`.
    pub fn has_version(&self, version: &str) -> (r: bool)
        ensures
            r == spec_cache_has_version(self@.infos, version@),
    {
        let n = self.versions.len();
        let mut i: usize = 0;
        while i < n
            invariant
                0 <= i <= n,
                n == self.versions@.len(),
                forall|k: int| 0 <= k < i ==> self@.infos[k].version != version@,
            decreases n - i,
        {
            proof {
                assert(self@.infos[i as int] == self.versions@[i as int].deep_view());
            }
            if str_eq(self.versions[i].version.as_str(), version) {
                assert(self@.infos[i as int].version == version@);
                return true;
            }
            i = i + 1;
        }
        false
    }

    /// The download URL for `version` on the platform named `platform_name`,
    /// when the cache holds it.
    pub fn get_download_url(&self, version: &str, platform_name: &str) -> (r: Option<String>)
        ensures
            r.deep_view() == spec_get_download_url(self@.infos, version@, platform_name@),
    {
        let ghost infos = self@.infos;
        let n = self.versions.len();
        let mut i: usize = 0;
        assert(infos.subrange(0, infos.len() as int) =~= infos);
        while i < n
            invariant
                0 <= i <= n,
                n == self.versions@.len(),
                infos == self@.infos,
                spec_first_info(infos.subrange(i as int, infos.len() as int), version@)
                    == spec_first_info(infos, version@),
            decreases n - i,
        {
            proof {
                lemma_first_info_step(infos, version@, i as int);
                assert(infos[i as int] == self.versions@[i as int].deep_view());
            }
            let info: &VersionInfo = &self.versions[i];
            if str_eq(info.version.as_str(), version) {
                let ghost spec_info = infos[i as int];
                assert(spec_first_info(infos, version@) == Some(spec_info));
                let m = info.urls.len();
                let mut j: usize = 0;
                assert(spec_info.urls.subrange(0, spec_info.urls.len() as int)
                    =~= spec_info.urls);
                while j < m
                    invariant
                        0 <= j <= m,
                        m == info.urls@.len(),
                        spec_info == infos[i as int],
                        i < n == self.versions@.len(),
                        infos == self@.infos,
                        info == &self.versions[i as int],
                        spec_info.urls == info.urls.deep_view(),
                        spec_lookup_url(
                            spec_info.urls.subrange(j as int, spec_info.urls.len() as int),
                            platform_name@,
                        ) == spec_lookup_url(spec_info.urls, platform_name@),
                        spec_first_info(infos, version@) == Some(spec_info),
                    decreases m - j,
                {
                    proof {
                        lemma_lookup_url_step(spec_info.urls, platform_name@, j as int);
                        assert(spec_info.urls[j as int]
                            == (info.urls@[j as int].0@, info.urls@[j as int].1@));
                    }
                    let entry: &(String, String) = &info.urls[j];
                    if str_eq(entry.0.as_str(), platform_name) {
                        return Some(entry.1.clone());
                    }
                    j = j + 1;
                }
                assert(spec_info.urls.subrange(m as int, spec_info.urls.len() as int)
                    =~= Seq::<(Seq<char>, Seq<char>)>::empty());
                return None;
            }
            assert(infos[i as int].version != version@);
            i = i + 1;
        }
        assert(infos.subrange(n as int, infos.len() as int)
            =~= Seq::<VersionInfoV>::empty());
        None
    }

    /// The timestamp the cache was written with.
    pub fn timestamp(&self) -> (r: &String)
        ensures
            r@ == self@.timestamp,
    {
        &self.timestamp
    }
}

/// The platform whose URLs the cache synthesizes for migrated and freshly
/// built entries.
pub open spec fn spec_cache_platform() -> Platform {
    Platform {
        name: "linux-x86_64",
        mirror_path: "x86_64",
        binary_suffix: "linux",
        file_extension: "tar.gz",
    }
}

/// The entry built for one version string: its download URL under the one
/// supported platform name.
pub open spec fn spec_info_for_version(v: Seq<char>) -> VersionInfoV {
    VersionInfoV {
        version: v,
        urls: seq![
            ("linux-x86_64"@, spec_download_url(spec_cache_platform(), v)),
        ],
    }
}

/// The entries built for a list of version strings.
pub open spec fn spec_build_version_info(vs: Seq<Seq<char>>) -> Seq<VersionInfoV> {
    vs.map_values(|v: Seq<char>| spec_info_for_version(v))
}

/// Builds a [`VersionInfo`] for every version string, with download URLs for
/// every supported platform.
pub fn build_version_info(version_strings: &[String]) -> (r: Vec<VersionInfo>)
    ensures
        r.deep_view() == spec_build_version_info(version_strings.deep_view()),
{
    let ghost vs = version_strings.deep_view();
    let platform = Platform::linux_x86_64();
    let n = version_strings.len();
    let mut out: Vec<VersionInfo> = Vec::new();
    let mut i: usize = 0;
    while i < n
        invariant
            0 <= i <= n,
            n == vs.len(),
            vs == version_strings.deep_view(),
            platform.name@ == "linux-x86_64"@,
            platform.mirror_path@ == "x86_64"@,
            platform.binary_suffix@ == "linux"@,
            platform.file_extension@ == "tar.gz"@,
            out.deep_view() =~= spec_build_version_info(vs).subrange(0, i as int),
        decreases n - i,
    {
        proof {
            assert(version_strings@[i as int]@ == vs[i as int]);
        }
        let version: &String = &version_strings[i];
        let url = platform.build_download_url(version.as_str());
        let mut urls: Vec<(String, String)> = Vec::new();
        urls.push((String::from_str("linux-x86_64"), url));
        let info = VersionInfo { version: version.clone(), urls };
        proof {
            assert(info.urls.deep_view() =~= seq![
                ("linux-x86_64"@, spec_download_url(spec_cache_platform(), vs[i as int])),
            ]) by {
                assert(info.urls@.len() == 1);
                assert(info.urls.deep_view()[0]
                    == (info.urls@[0].0@, info.urls@[0].1@));
                assert(spec_download_url(platform, vs[i as int])
                    == spec_download_url(spec_cache_platform(), vs[i as int]));
            }
            assert(info.deep_view() == spec_info_for_version(vs[i as int]));
        }
        let ghost old_dv = out.deep_view();
        let ghost info_v = info.deep_view();
        out.push(info);
        proof {
            assert(out.deep_view() =~= old_dv.push(info_v));
            assert(spec_build_version_info(vs).subrange(0, i + 1)
                =~= spec_build_version_info(vs).subrange(0, i as int).push(
                spec_build_version_info(vs)[i as int],
            ));
            assert(out.deep_view() =~= spec_build_version_info(vs).subrange(0, i + 1));
        }
        i = i + 1;
    }
    assert(out.deep_view() =~= spec_build_version_info(vs));
    out
}

/// What chrono reads an RFC 3339 string as: the seconds since the epoch it
/// names, or nothing when the string is not a well-formed timestamp.  A
/// function of the string alone.
pub uninterp spec fn rfc3339_epoch(s: Seq<char>) -> Option<i64>;

/// Relies on chrono's DateTime::parse_from_rfc3339 and DateTime::timestamp:
/// reads an RFC 3339 string as seconds since the epoch, a value depending on
/// the string alone.
#[verifier::external_body]
pub(crate) fn parse_rfc3339_epoch(s: &str) -> (r: Option<i64>)
    ensures
        r == rfc3339_epoch(s@),
{
    match chrono::DateTime::parse_from_rfc3339(s) {
        Ok(t) => Some(t.timestamp()),
        Err(_) => None,
    }
}

/// Relies on chrono's Utc::now and DateTime::to_rfc3339_opts: the current
/// time written in RFC 3339 form, which parse_from_rfc3339 reads back.
#[verifier::external_body]
fn now_rfc3339() -> (r: String)
    ensures
        rfc3339_epoch(r@) is Some,
{
    chrono::Utc::now().to_rfc3339_opts(chrono::SecondsFormat::AutoSi, true)
}

/// The JSON written for one platform-name/URL pair.
pub open spec fn spec_render_url_entry(e: (Seq<char>, Seq<char>)) -> Seq<char> {
    spec_quote(e.0) + ":"@ + spec_quote(e.1)
}

/// The JSON written for the pairs of a `urls` object, comma-separated.
pub open spec fn spec_render_urls(urls: Seq<(Seq<char>, Seq<char>)>) -> Seq<char>
    decreases urls.len(),
{
    if urls.len() == 0 {
        Seq::empty()
    } else if urls.len() == 1 {
        spec_render_url_entry(urls[0])
    } else {
        spec_render_urls(urls.drop_last()) + ","@ + spec_render_url_entry(urls.last())
    }
}

/// The JSON object written for one cache entry.
pub open spec fn spec_render_info(i: VersionInfoV) -> Seq<char> {
    "{\"version\":"@ + spec_quote(i.version) + ",\"urls\":{"@ + spec_render_urls(i.urls) + "}}"@
}

/// The JSON written for the cache entries, comma-separated.
pub open spec fn spec_render_infos(infos: Seq<VersionInfoV>) -> Seq<char>
    decreases infos.len(),
{
    if infos.len() == 0 {
        Seq::empty()
    } else if infos.len() == 1 {
        spec_render_info(infos[0])
    } else {
        spec_render_infos(infos.drop_last()) + ","@ + spec_render_info(infos.last())
    }
}

/// The whole cache file written for `infos` under `timestamp`.
pub open spec fn spec_render_cache(infos: Seq<VersionInfoV>, timestamp: Seq<char>) -> Seq<char> {
    "{\"versions\":["@ + spec_render_infos(infos) + "],\"timestamp\":"@ + spec_quote(timestamp)
        + "}"@
}

/// Writes the `urls` object body of one entry.
fn render_urls(urls: &Vec<(String, String)>) -> (r: String)
    ensures
        r@ == spec_render_urls(urls.deep_view()),
{
    let ghost us = urls.deep_view();
    let n = urls.len();
    let mut out = String::new();
    let mut i: usize = 0;
    while i < n
        invariant
            0 <= i <= n,
            n == us.len(),
            us == urls.deep_view(),
            out@ == spec_render_urls(us.subrange(0, i as int)),
        decreases n - i,
    {
        proof {
            assert(us[i as int] == (urls@[i as int].0@, urls@[i as int].1@));
            let p = us.subrange(0, i as int);
            let q = us.subrange(0, i + 1 as int);
            assert(q.drop_last() =~= p);
            assert(q.last() == us[i as int]);
            if i > 0 {
                assert(spec_render_urls(q) == spec_render_urls(p) + ","@
                    + spec_render_url_entry(us[i as int]));
            } else {
                assert(q.len() == 1);
                assert(q[0] == us[0]);
            }
        }
        if i > 0 {
            out.append(",");
        }
        let entry: &(String, String) = &urls[i];
        let k = quote_json_string(entry.0.as_str());
        out.append(k.as_str());
        out.append(":");
        let v = quote_json_string(entry.1.as_str());
        out.append(v.as_str());
        proof {
            if i == 0 {
                assert(out@ =~= spec_render_url_entry(us[0]));
                assert(out@ =~= spec_render_urls(us.subrange(0, 1)));
            } else {
                assert(out@ =~= spec_render_urls(us.subrange(0, i + 1)));
            }
        }
        i = i + 1;
    }
    assert(us.subrange(0, n as int) =~= us);
    out
}

/// Writes the JSON object of one cache entry.
fn render_info(info: &VersionInfo) -> (r: String)
    ensures
        r@ == spec_render_info(info.deep_view()),
{
    let mut out = String::from_str("{\"version\":");
    let v = quote_json_string(info.version.as_str());
    out.append(v.as_str());
    out.append(",\"urls\":{");
    let urls = render_urls(&info.urls);
    out.append(urls.as_str());
    out.append("}}");
    assert(out@ =~= spec_render_info(info.deep_view()));
    out
}

/// Writes the whole cache file for `versions` under `timestamp`.
pub fn render_cache_file(versions: &Vec<VersionInfo>, timestamp: &str) -> (r: String)
    ensures
        r@ == spec_render_cache(versions.deep_view(), timestamp@),
{
    let ghost infos = versions.deep_view();
    let n = versions.len();
    let mut body = String::new();
    let mut i: usize = 0;
    while i < n
        invariant
            0 <= i <= n,
            n == infos.len(),
            infos == versions.deep_view(),
            body@ == spec_render_infos(infos.subrange(0, i as int)),
        decreases n - i,
    {
        proof {
            assert(infos[i as int] == versions@[i as int].deep_view());
            let p = infos.subrange(0, i as int);
            let q = infos.subrange(0, i + 1 as int);
            assert(q.drop_last() =~= p);
            assert(q.last() == infos[i as int]);
            if i > 0 {
                assert(spec_render_infos(q) == spec_render_infos(p) + ","@
                    + spec_render_info(infos[i as int]));
            } else {
                assert(q.len() == 1);
                assert(q[0] == infos[0]);
            }
        }
        if i > 0 {
            body.append(",");
        }
        let one = render_info(&versions[i]);
        body.append(one.as_str());
        proof {
            if i == 0 {
                assert(body@ =~= spec_render_infos(infos.subrange(0, 1)));
            } else {
                assert(body@ =~= spec_render_infos(infos.subrange(0, i + 1)));
            }
        }
        i = i + 1;
    }
    assert(infos.subrange(0, n as int) =~= infos);
    let mut out = String::from_str("{\"versions\":[");
    out.append(body.as_str());
    out.append("],\"timestamp\":");
    let ts = quote_json_string(timestamp);
    out.append(ts.as_str());
    out.append("}");
    assert(out@ =~= spec_render_cache(infos, timestamp@));
    out
}

/// Builds the cache file content for `versions`, stamped with the present
/// time.  The caller persists it; a failure to do so is the caller's to
/// report or to swallow.
pub fn save_cached_versions(versions: &Vec<VersionInfo>) -> (r: String)
    ensures
        exists|ts: Seq<char>|
            rfc3339_epoch(ts) is Some && r@ == spec_render_cache(versions.deep_view(), ts),
{
    let now = now_rfc3339();
    let r = render_cache_file(versions, now.as_str());
    assert(rfc3339_epoch(now@) is Some && r@ == spec_render_cache(versions.deep_view(), now@));
    r
}

proof fn lemma_view_entries_props(s: Seq<(String, Json)>)
    ensures
        crate::json::view_json_entries(s).len() == s.len(),
        forall|k: int|
            0 <= k < s.len() ==> crate::json::view_json_entries(s)[k] == (
                s[k].0@,
                view_json(s[k].1),
            ),
    decreases s.len(),
{
    if s.len() > 0 {
        lemma_view_entries_props(s.drop_first());
        assert forall|k: int|
            0 <= k < s.len() implies crate::json::view_json_entries(s)[k] == (
            s[k].0@,
            view_json(s[k].1),
        ) by {
            if k > 0 {
                assert(s.drop_first()[k - 1] == s[k]);
            }
        }
    }
}

proof fn lemma_view_seq_props(s: Seq<Json>)
    ensures
        crate::json::view_json_seq(s).len() == s.len(),
        forall|k: int|
            0 <= k < s.len() ==> crate::json::view_json_seq(s)[k] == view_json(s[k]),
    decreases s.len(),
{
    if s.len() > 0 {
        lemma_view_seq_props(s.drop_first());
        assert forall|k: int|
            0 <= k < s.len() implies crate::json::view_json_seq(s)[k] == view_json(s[k]) by {
            if k > 0 {
                assert(s.drop_first()[k - 1] == s[k]);
            }
        }
    }
}

/// The value under the first member named `key`.
pub open spec fn spec_first_val(ms: Seq<(Seq<char>, JsonSpec)>, key: Seq<char>) -> Option<JsonSpec>
    decreases ms.len(),
{
    if ms.len() == 0 {
        None
    } else if ms[0].0 == key {
        Some(ms[0].1)
    } else {
        spec_first_val(ms.drop_first(), key)
    }
}

proof fn lemma_first_val_step(ms: Seq<(Seq<char>, JsonSpec)>, key: Seq<char>, i: int)
    requires
        0 <= i < ms.len(),
    ensures
        spec_first_val(ms.subrange(i, ms.len() as int), key) == (if ms[i].0 == key {
            Some(ms[i].1)
        } else {
            spec_first_val(ms.subrange(i + 1, ms.len() as int), key)
        }),
{
    let tail = ms.subrange(i, ms.len() as int);
    assert(tail[0] == ms[i]);
    assert(tail.drop_first() =~= ms.subrange(i + 1, ms.len() as int));
}

/// The members of a `urls` object as name/URL pairs, when every value is a
/// string.
pub open spec fn spec_str_entries(ms: Seq<(Seq<char>, JsonSpec)>) -> Option<
    Seq<(Seq<char>, Seq<char>)>,
>
    decreases ms.len(),
{
    if ms.len() == 0 {
        Some(Seq::empty())
    } else {
        match ms[0].1 {
            JsonSpec::Str(v) => match spec_str_entries(ms.drop_first()) {
                Some(rest) => Some(seq![(ms[0].0, v)] + rest),
                None => None,
            },
            _ => None,
        }
    }
}

proof fn lemma_str_entries_step(ms: Seq<(Seq<char>, JsonSpec)>, i: int)
    requires
        0 <= i < ms.len(),
    ensures
        spec_str_entries(ms.subrange(i, ms.len() as int)) == (match ms[i].1 {
            JsonSpec::Str(v) => match spec_str_entries(ms.subrange(i + 1, ms.len() as int)) {
                Some(rest) => Some(seq![(ms[i].0, v)] + rest),
                None => None,
            },
            _ => None,
        }),
{
    let tail = ms.subrange(i, ms.len() as int);
    assert(tail[0] == ms[i]);
    assert(tail.drop_first() =~= ms.subrange(i + 1, ms.len() as int));
}

/// The cache entry a JSON value describes: an object with a string under
/// `version` and a string-valued object under `urls`.
pub open spec fn spec_info_of_json(j: JsonSpec) -> Option<VersionInfoV> {
    match j {
        JsonSpec::Obj(ms) => match (spec_first_val(ms, "version"@), spec_first_val(ms, "urls"@)) {
            (Some(JsonSpec::Str(v)), Some(JsonSpec::Obj(us))) => match spec_str_entries(us) {
                Some(urls) => Some(VersionInfoV { version: v, urls }),
                None => None,
            },
            _ => None,
        },
        _ => None,
    }
}

/// The cache entries a JSON array describes, when every element is one.
pub open spec fn spec_infos_of_json(items: Seq<JsonSpec>) -> Option<Seq<VersionInfoV>>
    decreases items.len(),
{
    if items.len() == 0 {
        Some(Seq::empty())
    } else {
        match spec_info_of_json(items[0]) {
            Some(info) => match spec_infos_of_json(items.drop_first()) {
                Some(rest) => Some(seq![info] + rest),
                None => None,
            },
            None => None,
        }
    }
}

proof fn lemma_infos_of_json_step(items: Seq<JsonSpec>, i: int)
    requires
        0 <= i < items.len(),
    ensures
        spec_infos_of_json(items.subrange(i, items.len() as int)) == (match spec_info_of_json(
            items[i],
        ) {
            Some(info) => match spec_infos_of_json(items.subrange(i + 1, items.len() as int)) {
                Some(rest) => Some(seq![info] + rest),
                None => None,
            },
            None => None,
        }),
{
    let tail = items.subrange(i, items.len() as int);
    assert(tail[0] == items[i]);
    assert(tail.drop_first() =~= items.subrange(i + 1, items.len() as int));
}

/// The version strings a JSON array holds, when every element is a string.
pub open spec fn spec_strings_of_json(items: Seq<JsonSpec>) -> Option<Seq<Seq<char>>>
    decreases items.len(),
{
    if items.len() == 0 {
        Some(Seq::empty())
    } else {
        match items[0] {
            JsonSpec::Str(v) => match spec_strings_of_json(items.drop_first()) {
                Some(rest) => Some(seq![v] + rest),
                None => None,
            },
            _ => None,
        }
    }
}

proof fn lemma_strings_of_json_step(items: Seq<JsonSpec>, i: int)
    requires
        0 <= i < items.len(),
    ensures
        spec_strings_of_json(items.subrange(i, items.len() as int)) == (match items[i] {
            JsonSpec::Str(v) => match spec_strings_of_json(items.subrange(i + 1, items.len() as int)) {
                Some(rest) => Some(seq![v] + rest),
                None => None,
            },
            _ => None,
        }),
{
    let tail = items.subrange(i, items.len() as int);
    assert(tail[0] == items[i]);
    assert(tail.drop_first() =~= items.subrange(i + 1, items.len() as int));
}

/// The current cache format: versions as entry objects, and a timestamp
/// that chrono reads back.
pub open spec fn spec_cache_of_json(j: JsonSpec) -> Option<CacheV> {
    match j {
        JsonSpec::Obj(ms) => match (spec_first_val(ms, "versions"@), spec_first_val(
            ms,
            "timestamp"@,
        )) {
            (Some(JsonSpec::Arr(items)), Some(JsonSpec::Str(ts))) => match spec_infos_of_json(
                items,
            ) {
                Some(infos) => if rfc3339_epoch(ts) is Some {
                    Some(CacheV { infos, timestamp: ts })
                } else {
                    None
                },
                None => None,
            },
            _ => None,
        },
        _ => None,
    }
}

/// The legacy cache format: versions as bare strings, and a timestamp that
/// chrono reads back.
pub open spec fn spec_legacy_of_json(j: JsonSpec) -> Option<(Seq<Seq<char>>, Seq<char>)> {
    match j {
        JsonSpec::Obj(ms) => match (spec_first_val(ms, "versions"@), spec_first_val(
            ms,
            "timestamp"@,
        )) {
            (Some(JsonSpec::Arr(items)), Some(JsonSpec::Str(ts))) => match spec_strings_of_json(
                items,
            ) {
                Some(vs) => if rfc3339_epoch(ts) is Some {
                    Some((vs, ts))
                } else {
                    None
                },
                None => None,
            },
            _ => None,
        },
        _ => None,
    }
}

/// What loading a cache file yields.
pub enum LoadV {
    /// No file.
    Missing,
    /// A current-format cache.
    Valid(CacheV),
    /// A legacy-format cache, upgraded; the text is the upgraded form to
    /// write back.
    Migrated(CacheV, Seq<char>),
    /// Text in neither format; the file should be deleted.
    Corrupt,
}

/// What loading the given file content yields.
pub open spec fn spec_load_cache(content: Option<Seq<char>>) -> LoadV {
    match content {
        None => LoadV::Missing,
        Some(s) => match spec_parse_document(s) {
            None => LoadV::Corrupt,
            Some(j) => match spec_cache_of_json(j) {
                Some(cv) => LoadV::Valid(cv),
                None => match spec_legacy_of_json(j) {
                    Some((vs, ts)) => {
                        let infos = spec_build_version_info(vs);
                        LoadV::Migrated(
                            CacheV { infos, timestamp: ts },
                            spec_render_cache(infos, ts),
                        )
                    },
                    None => LoadV::Corrupt,
                },
            },
        },
    }
}

/// Takes the value under the first member named `key`.
fn find_member<'a>(ms: &'a Vec<(String, Json)>, key: &str) -> (r: Option<&'a Json>)
    ensures
        (match r {
            None => spec_first_val(crate::json::view_json_entries(ms@), key@) is None,
            Some(v) => spec_first_val(crate::json::view_json_entries(ms@), key@) == Some(
                view_json(*v),
            ),
        }),
{
    let ghost ve = crate::json::view_json_entries(ms@);
    proof {
        lemma_view_entries_props(ms@);
    }
    let n = ms.len();
    let mut i: usize = 0;
    assert(ve.subrange(0, ve.len() as int) =~= ve);
    while i < n
        invariant
            0 <= i <= n,
            n == ms@.len(),
            ve == crate::json::view_json_entries(ms@),
            ve.len() == n,
            forall|k: int| 0 <= k < n ==> ve[k] == (ms@[k].0@, view_json(ms@[k].1)),
            spec_first_val(ve.subrange(i as int, ve.len() as int), key@) == spec_first_val(
                ve,
                key@,
            ),
        decreases n - i,
    {
        proof {
            lemma_first_val_step(ve, key@, i as int);
        }
        let entry: &(String, Json) = &ms[i];
        if str_eq(entry.0.as_str(), key) {
            return Some(&entry.1);
        }
        i = i + 1;
    }
    assert(ve.subrange(n as int, ve.len() as int) =~= Seq::<(Seq<char>, JsonSpec)>::empty());
    None
}

/// Reads a `urls` object: every value must be a string.
fn json_str_entries(ms: &Vec<(String, Json)>) -> (r: Option<Vec<(String, String)>>)
    ensures
        (match r {
            None => spec_str_entries(crate::json::view_json_entries(ms@)) is None,
            Some(urls) => spec_str_entries(crate::json::view_json_entries(ms@)) == Some(
                urls.deep_view(),
            ),
        }),
{
    let ghost ve = crate::json::view_json_entries(ms@);
    proof {
        lemma_view_entries_props(ms@);
    }
    let n = ms.len();
    let mut out: Vec<(String, String)> = Vec::new();
    let mut i: usize = 0;
    assert(ve.subrange(0, ve.len() as int) =~= ve);
    while i < n
        invariant
            0 <= i <= n,
            n == ms@.len(),
            ve == crate::json::view_json_entries(ms@),
            ve.len() == n,
            forall|k: int| 0 <= k < n ==> ve[k] == (ms@[k].0@, view_json(ms@[k].1)),
            (match spec_str_entries(ve.subrange(i as int, ve.len() as int)) {
                Some(rest) => spec_str_entries(ve) == Some(out.deep_view() + rest),
                None => spec_str_entries(ve) is None,
            }),
        decreases n - i,
    {
        proof {
            lemma_str_entries_step(ve, i as int);
        }
        let entry: &(String, Json) = &ms[i];
        match &entry.1 {
            Json::Str(v) => {
                let ghost old_dv = out.deep_view();
                out.push((entry.0.clone(), v.clone()));
                proof {
                    assert(out.deep_view() =~= old_dv.push((ms@[i as int].0@, v@)));
                    let tailv = spec_str_entries(ve.subrange(i + 1, ve.len() as int));
                    if tailv is Some {
                        let rest = tailv->0;
                        assert(old_dv + (seq![(ve[i as int].0, v@)] + rest) =~= out.deep_view()
                            + rest);
                    }
                }
            },
            _ => {
                return None;
            },
        }
        i = i + 1;
    }
    proof {
        assert(ve.subrange(n as int, ve.len() as int) =~= Seq::<(Seq<char>, JsonSpec)>::empty());
        assert(spec_str_entries(ve) == Some(out.deep_view() + Seq::<(Seq<char>, Seq<char>)>::empty()));
        assert(out.deep_view() + Seq::<(Seq<char>, Seq<char>)>::empty() =~= out.deep_view());
    }
    Some(out)
}

/// Reads one cache entry from a JSON value.
fn json_info(j: &Json) -> (r: Option<VersionInfo>)
    ensures
        (match r {
            None => spec_info_of_json(view_json(*j)) is None,
            Some(info) => spec_info_of_json(view_json(*j)) == Some(info.deep_view()),
        }),
{
    let ms: &Vec<(String, Json)> = match j {
        Json::Obj(ms) => ms,
        _ => {
            return None;
        },
    };
    let version: String = match find_member(ms, "version") {
        Some(Json::Str(v)) => v.clone(),
        Some(_) => {
            return None;
        },
        None => {
            return None;
        },
    };
    let urls: Vec<(String, String)> = match find_member(ms, "urls") {
        Some(Json::Obj(us)) => match json_str_entries(us) {
            Some(urls) => urls,
            None => {
                return None;
            },
        },
        Some(_) => {
            return None;
        },
        None => {
            return None;
        },
    };
    let info = VersionInfo { version, urls };
    Some(info)
}

/// Reads the cache entries from a JSON array.
fn json_infos(items: &Vec<Json>) -> (r: Option<Vec<VersionInfo>>)
    ensures
        (match r {
            None => spec_infos_of_json(crate::json::view_json_seq(items@)) is None,
            Some(infos) => spec_infos_of_json(crate::json::view_json_seq(items@)) == Some(
                infos.deep_view(),
            ),
        }),
{
    let ghost vs = crate::json::view_json_seq(items@);
    proof {
        lemma_view_seq_props(items@);
    }
    let n = items.len();
    let mut out: Vec<VersionInfo> = Vec::new();
    let mut i: usize = 0;
    assert(vs.subrange(0, vs.len() as int) =~= vs);
    while i < n
        invariant
            0 <= i <= n,
            n == items@.len(),
            vs == crate::json::view_json_seq(items@),
            vs.len() == n,
            forall|k: int| 0 <= k < n ==> vs[k] == view_json(items@[k]),
            (match spec_infos_of_json(vs.subrange(i as int, vs.len() as int)) {
                Some(rest) => spec_infos_of_json(vs) == Some(out.deep_view() + rest),
                None => spec_infos_of_json(vs) is None,
            }),
        decreases n - i,
    {
        proof {
            lemma_infos_of_json_step(vs, i as int);
        }
        match json_info(&items[i]) {
            Some(info) => {
                let ghost old_dv = out.deep_view();
                let ghost iv = info.deep_view();
                out.push(info);
                proof {
                    assert(out.deep_view() =~= old_dv.push(iv));
                    let tailv = spec_infos_of_json(vs.subrange(i + 1, vs.len() as int));
                    if tailv is Some {
                        let rest = tailv->0;
                        assert(old_dv + (seq![iv] + rest) =~= out.deep_view() + rest);
                    }
                }
            },
            None => {
                return None;
            },
        }
        i = i + 1;
    }
    proof {
        assert(vs.subrange(n as int, vs.len() as int) =~= Seq::<JsonSpec>::empty());
        assert(spec_infos_of_json(vs) == Some(out.deep_view() + Seq::<VersionInfoV>::empty()));
        assert(out.deep_view() + Seq::<VersionInfoV>::empty() =~= out.deep_view());
    }
    Some(out)
}

/// Reads the version strings from a legacy JSON array.
fn json_strings(items: &Vec<Json>) -> (r: Option<Vec<String>>)
    ensures
        (match r {
            None => spec_strings_of_json(crate::json::view_json_seq(items@)) is None,
            Some(vs) => spec_strings_of_json(crate::json::view_json_seq(items@)) == Some(
                vs.deep_view(),
            ),
        }),
{
    let ghost vs = crate::json::view_json_seq(items@);
    proof {
        lemma_view_seq_props(items@);
    }
    let n = items.len();
    let mut out: Vec<String> = Vec::new();
    let mut i: usize = 0;
    assert(vs.subrange(0, vs.len() as int) =~= vs);
    while i < n
        invariant
            0 <= i <= n,
            n == items@.len(),
            vs == crate::json::view_json_seq(items@),
            vs.len() == n,
            forall|k: int| 0 <= k < n ==> vs[k] == view_json(items@[k]),
            (match spec_strings_of_json(vs.subrange(i as int, vs.len() as int)) {
                Some(rest) => spec_strings_of_json(vs) == Some(out.deep_view() + rest),
                None => spec_strings_of_json(vs) is None,
            }),
        decreases n - i,
    {
        proof {
            lemma_strings_of_json_step(vs, i as int);
        }
        match &items[i] {
            Json::Str(v) => {
                let ghost old_dv = out.deep_view();
                out.push(v.clone());
                proof {
                    assert(out.deep_view() =~= old_dv.push(v@));
                    let tailv = spec_strings_of_json(vs.subrange(i + 1, vs.len() as int));
                    if tailv is Some {
                        let rest = tailv->0;
                        assert(old_dv + (seq![v@] + rest) =~= out.deep_view() + rest);
                    }
                }
            },
            _ => {
                return None;
            },
        }
        i = i + 1;
    }
    proof {
        assert(vs.subrange(n as int, vs.len() as int) =~= Seq::<JsonSpec>::empty());
        assert(spec_strings_of_json(vs) == Some(out.deep_view() + Seq::<Seq<char>>::empty()));
        assert(out.deep_view() + Seq::<Seq<char>>::empty() =~= out.deep_view());
    }
    Some(out)
}

/// What loading a cache file yielded.
pub enum CacheLoadOutcome {
    /// No file was there: treat as a cold cache.
    Missing,
    /// A current-format cache.
    Valid(VersionCache),
    /// A legacy-format cache, upgraded in memory; the text is the upgraded
    /// form, to be written back best-effort.
    Migrated(VersionCache, String),
    /// The content is in neither format: delete the file and treat as cold.
    Corrupt,
}

/// Reads cache file content.  A missing file is a cold cache; current-format
/// content loads as it is; legacy content is upgraded, with URLs synthesized
/// for every known platform and the original timestamp kept, and the
/// upgraded text is handed back for a best-effort rewrite; anything else is
/// corrupt, and the caller deletes the file.
pub fn load_cached_versions(content: Option<&str>) -> (r: CacheLoadOutcome)
    ensures
        (match r {
            CacheLoadOutcome::Missing => spec_load_cache(content.deep_view()) is Missing,
            CacheLoadOutcome::Valid(c) => spec_load_cache(content.deep_view()) == LoadV::Valid(c@),
            CacheLoadOutcome::Migrated(c, w) => spec_load_cache(content.deep_view())
                == LoadV::Migrated(c@, w@),
            CacheLoadOutcome::Corrupt => spec_load_cache(content.deep_view()) is Corrupt,
        }),
{
    let s: &str = match content {
        None => {
            return CacheLoadOutcome::Missing;
        },
        Some(s) => s,
    };
    let j: Json = match parse_document(s) {
        None => {
            return CacheLoadOutcome::Corrupt;
        },
        Some(j) => j,
    };
    let ms: &Vec<(String, Json)> = match &j {
        Json::Obj(ms) => ms,
        _ => {
            return CacheLoadOutcome::Corrupt;
        },
    };
    let items: &Vec<Json> = match find_member(ms, "versions") {
        Some(Json::Arr(items)) => items,
        Some(_) => {
            return CacheLoadOutcome::Corrupt;
        },
        None => {
            return CacheLoadOutcome::Corrupt;
        },
    };
    let ts: String = match find_member(ms, "timestamp") {
        Some(Json::Str(ts)) => ts.clone(),
        Some(_) => {
            return CacheLoadOutcome::Corrupt;
        },
        None => {
            return CacheLoadOutcome::Corrupt;
        },
    };
    if parse_rfc3339_epoch(ts.as_str()).is_none() {
        return CacheLoadOutcome::Corrupt;
    }
    match json_infos(items) {
        Some(infos) => CacheLoadOutcome::Valid(VersionCache::new(infos, ts)),
        None => match json_strings(items) {
            Some(version_strings) => {
                let infos = build_version_info(version_strings.as_slice());
                let rendered = render_cache_file(&infos, ts.as_str());
                CacheLoadOutcome::Migrated(VersionCache::new(infos, ts), rendered)
            },
            None => CacheLoadOutcome::Corrupt,
        },
    }
}

/// Relies on chrono's Utc::now and DateTime::timestamp: the present time in
/// seconds since the epoch.  Nothing is promised of its value.
#[verifier::external_body]
fn now_epoch() -> (r: i64) {
    chrono::Utc::now().timestamp()
}

/// The age text shown for a cache `age_seconds` old: whole hours once at
/// least one has passed, else whole minutes, else seconds clamped at zero.
pub open spec fn spec_format_age(age_seconds: int) -> Seq<char> {
    if age_seconds >= 3600 {
        spec_udec((age_seconds / 3600) as nat) + "h ago"@
    } else if age_seconds >= 60 {
        spec_udec((age_seconds / 60) as nat) + "m ago"@
    } else if age_seconds >= 0 {
        spec_udec(age_seconds as nat) + "s ago"@
    } else {
        spec_udec(0) + "s ago"@
    }
}

/// Formats how long ago a cache `age_seconds` old was written, as
/// `"{N}h ago"`, `"{N}m ago"` or `"{N}s ago"`.
pub fn format_cache_age(age_seconds: i64) -> (r: String)
    ensures
        r@ == spec_format_age(age_seconds as int),
{
    if age_seconds >= 3600 {
        let mut s = u64_to_string((age_seconds / 3600) as u64);
        s.append("h ago");
        s
    } else if age_seconds >= 60 {
        let mut s = u64_to_string((age_seconds / 60) as u64);
        s.append("m ago");
        s
    } else if age_seconds >= 0 {
        let mut s = u64_to_string(age_seconds as u64);
        s.append("s ago");
        s
    } else {
        let mut s = u64_to_string(0);
        s.append("s ago");
        s
    }
}

/// How many seconds ago the RFC 3339 `timestamp` was, by the present clock;
/// nothing when the timestamp does not parse.
pub fn cache_age_seconds(timestamp: &str) -> (r: Option<i64>)
    ensures
        r is Some <==> rfc3339_epoch(timestamp@) is Some,
{
    let e: i64 = match parse_rfc3339_epoch(timestamp) {
        Some(e) => e,
        None => {
            return None;
        },
    };
    let now = now_epoch();
    let diff: i128 = (now as i128) - (e as i128);
    if diff > (i64::MAX as i128) {
        Some(i64::MAX)
    } else if diff < (i64::MIN as i128) {
        Some(i64::MIN)
    } else {
        Some(diff as i64)
    }
}

/// What a cache query decides.
#[derive(Debug, PartialEq, Eq, Structural)]
pub enum CacheLookup {
    /// The cache answers: the version is there, or is known absent.
    Known(bool),
    /// The version is absent and the caller asked to refresh on a miss: the
    /// listing should be fetched anew and the cache rebuilt.
    RefreshNeeded,
    /// No cache is loaded; the caller cannot answer from the cache.
    Unavailable,
}

/// Decides whether `version` exists for `platform_name`, from a loaded
/// cache: a hit answers at once; a miss asks for a refresh only when
/// `update_if_missing` says so.
pub fn version_exists_in_cache(
    cache: Option<&VersionCache>,
    version: &str,
    platform_name: &str,
    update_if_missing: bool,
) -> (r: CacheLookup)
    ensures
        (match cache {
            None => r == CacheLookup::Unavailable,
            Some(c) => {
                let found = spec_get_download_url(c@.infos, version@, platform_name@) is Some;
                if found || !update_if_missing {
                    r == CacheLookup::Known(found)
                } else {
                    r == CacheLookup::RefreshNeeded
                }
            },
        }),
{
    let c = match cache {
        None => {
            return CacheLookup::Unavailable;
        },
        Some(c) => c,
    };
    let found = c.get_download_url(version, platform_name).is_some();
    if found || !update_if_missing {
        CacheLookup::Known(found)
    } else {
        CacheLookup::RefreshNeeded
    }
}

/// One line with its single trailing carriage return removed.
pub open spec fn spec_strip_cr(l: Seq<char>) -> Seq<char> {
    if l.len() > 0 && l.last() == '\r' {
        l.drop_last()
    } else {
        l
    }
}

/// The lines of `s`, as `str::lines` yields them: split on newlines, the
/// final empty piece dropped, and a trailing carriage return stripped from
/// each line.
pub open spec fn spec_lines(s: Seq<char>) -> Seq<Seq<char>> {
    if s.len() == 0 {
        Seq::empty()
    } else {
        let ps = spec_split(s, '\n');
        let kept = if ps.len() > 0 && ps.last().len() == 0 {
            ps.drop_last()
        } else {
            ps
        };
        kept.map_values(|l: Seq<char>| spec_strip_cr(l))
    }
}

/// All trailing slashes removed.
pub open spec fn spec_trim_slashes(v: Seq<char>) -> Seq<char>
    decreases v.len(),
{
    if v.len() > 0 && v.last() == '/' {
        spec_trim_slashes(v.drop_last())
    } else {
        v
    }
}

proof fn lemma_trim_slashes_at(v: Seq<char>, j: int)
    requires
        0 <= j <= v.len(),
        forall|k: int| j <= k < v.len() ==> v[k] == '/',
        j > 0 ==> v[j - 1] != '/',
    ensures
        spec_trim_slashes(v) == v.subrange(0, j),
    decreases v.len() - j,
{
    if j == v.len() {
        assert(v.subrange(0, j) =~= v);
    } else {
        assert(v.last() == '/');
        let d = v.drop_last();
        assert forall|k: int| j <= k < d.len() implies d[k] == '/' by {
            assert(d[k] == v[k]);
        }
        if j > 0 {
            assert(d[j - 1] == v[j - 1]);
        }
        lemma_trim_slashes_at(d, j);
        assert(d.subrange(0, j) =~= v.subrange(0, j));
    }
}

/// The version a listing line contributes: the text between the line's
/// first two double quotes, when it ends with a slash and starts with an
/// ASCII digit, with its trailing slashes removed.
pub open spec fn spec_listing_entry(line: Seq<char>) -> Option<Seq<char>> {
    let qs = spec_split(line, '"');
    if qs.len() >= 2 {
        let ver = qs[1];
        if ver.len() > 0 && ver.last() == '/' && spec_is_digit(ver[0]) {
            Some(spec_trim_slashes(ver))
        } else {
            None
        }
    } else {
        None
    }
}

/// The versions the listing lines contribute, in order.
pub open spec fn spec_listing_versions(lines: Seq<Seq<char>>) -> Seq<Seq<char>>
    decreases lines.len(),
{
    if lines.len() == 0 {
        Seq::empty()
    } else {
        match spec_listing_entry(lines[0]) {
            Some(v) => seq![v] + spec_listing_versions(lines.drop_first()),
            None => spec_listing_versions(lines.drop_first()),
        }
    }
}

proof fn lemma_listing_versions_step(lines: Seq<Seq<char>>, i: int)
    requires
        0 <= i < lines.len(),
    ensures
        spec_listing_versions(lines.subrange(i, lines.len() as int)) == (match spec_listing_entry(
            lines[i],
        ) {
            Some(v) => seq![v] + spec_listing_versions(lines.subrange(i + 1, lines.len() as int)),
            None => spec_listing_versions(lines.subrange(i + 1, lines.len() as int)),
        }),
{
    let tail = lines.subrange(i, lines.len() as int);
    assert(tail[0] == lines[i]);
    assert(tail.drop_first() =~= lines.subrange(i + 1, lines.len() as int));
}

/// Splits `body` into its lines.
fn body_lines(body: &str) -> (r: Vec<String>)
    ensures
        r.deep_view() == spec_lines(body@),
{
    if body.is_empty() {
        let r: Vec<String> = Vec::new();
        assert(r.deep_view() =~= Seq::<Seq<char>>::empty());
        return r;
    }
    let mut pieces = split_char(body, '\n');
    let ghost ps = spec_split(body@, '\n');
    proof {
        crate::text::lemma_spec_split_len(body@, '\n');
    }
    if pieces[pieces.len() - 1].as_str().is_empty() {
        pieces.pop();
        assert(pieces.deep_view() =~= ps.drop_last()) by {
            assert(ps.last().len() == 0);
        }
    }
    let ghost kept = pieces.deep_view();
    let n = pieces.len();
    let mut out: Vec<String> = Vec::new();
    let mut i: usize = 0;
    while i < n
        invariant
            0 <= i <= n,
            n == kept.len(),
            kept == pieces.deep_view(),
            out.deep_view() =~= kept.map_values(|l: Seq<char>| spec_strip_cr(l)).subrange(
                0,
                i as int,
            ),
        decreases n - i,
    {
        proof {
            assert(pieces@[i as int]@ == kept[i as int]);
        }
        let line: &String = &pieces[i];
        let m = line.as_str().unicode_len();
        let ghost old_dv = out.deep_view();
        if m > 0 && line.as_str().get_char(m - 1) == '\r' {
            let stripped = line.as_str().substring_char(0, m - 1);
            assert(stripped@ =~= kept[i as int].drop_last());
            out.push(stripped.to_owned());
        } else {
            out.push(line.clone());
        }
        proof {
            let mv = kept.map_values(|l: Seq<char>| spec_strip_cr(l));
            assert(out.deep_view() =~= old_dv.push(spec_strip_cr(kept[i as int])));
            assert(mv.subrange(0, i + 1) =~= mv.subrange(0, i as int).push(mv[i as int]));
        }
        i = i + 1;
    }
    proof {
        let mv = kept.map_values(|l: Seq<char>| spec_strip_cr(l));
        assert(out.deep_view() =~= mv.subrange(0, n as int));
        assert(mv.subrange(0, n as int) =~= mv);
        assert(spec_lines(body@) == mv);
    }
    out
}

/// The version a listing line contributes, if any.
fn listing_entry(line: &str) -> (r: Option<String>)
    ensures
        r.deep_view() == spec_listing_entry(line@),
{
    let qs = split_char(line, '"');
    proof {
        assert(qs.deep_view().len() == qs@.len());
    }
    if qs.len() < 2 {
        return None;
    }
    proof {
        assert(qs.deep_view()[1] == qs@[1]@);
    }
    let ver: &String = &qs[1];
    let m = ver.as_str().unicode_len();
    if m == 0 {
        return None;
    }
    if ver.as_str().get_char(m - 1) != '/' {
        return None;
    }
    let c0 = ver.as_str().get_char(0);
    let u0 = c0 as u32;
    if !(48 <= u0 && u0 <= 57) {
        return None;
    }
    let mut j: usize = m;
    while j > 0 && ver.as_str().get_char(j - 1) == '/'
        invariant
            0 <= j <= m,
            m == ver@.len(),
            forall|k: int| j <= k < m ==> ver@[k] == '/',
        decreases j,
    {
        j = j - 1;
    }
    proof {
        lemma_trim_slashes_at(ver@, j as int);
    }
    let trimmed = ver.as_str().substring_char(0, j);
    Some(trimmed.to_owned())
}

/// Reads the versions out of a mirror directory listing: on each line, the
/// text between the first two double quotes counts when it ends with a
/// slash and starts with an ASCII digit; trailing slashes are removed.
pub fn parse_version_listing(body: &str) -> (r: Vec<String>)
    ensures
        r.deep_view() == spec_listing_versions(spec_lines(body@)),
{
    let lines = body_lines(body);
    let ghost ls = lines.deep_view();
    let n = lines.len();
    let mut out: Vec<String> = Vec::new();
    let mut i: usize = 0;
    assert(out.deep_view() + spec_listing_versions(ls.subrange(0, ls.len() as int))
        =~= spec_listing_versions(ls)) by {
        assert(ls.subrange(0, ls.len() as int) =~= ls);
        assert(out.deep_view() =~= Seq::<Seq<char>>::empty());
    }
    while i < n
        invariant
            0 <= i <= n,
            n == ls.len(),
            ls == lines.deep_view(),
            out.deep_view() + spec_listing_versions(ls.subrange(i as int, ls.len() as int))
                =~= spec_listing_versions(ls),
        decreases n - i,
    {
        proof {
            lemma_listing_versions_step(ls, i as int);
            assert(lines@[i as int]@ == ls[i as int]);
        }
        match listing_entry(lines[i].as_str()) {
            Some(v) => {
                out.push(v);
            },
            None => {
            },
        }
        i = i + 1;
    }
    proof {
        assert(ls.subrange(n as int, ls.len() as int) =~= Seq::<Seq<char>>::empty());
        assert(out.deep_view() =~= spec_listing_versions(ls));
    }
    out
}

} // verus!
