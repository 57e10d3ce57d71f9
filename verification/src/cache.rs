//! The session caches: the artifact cache over downloaded package
//! files, and the memo of fetched remote index pages.
//!
//! Both are pure state; the embedding program does the disk and network
//! work and reports back.

use vstd::prelude::*;
use vstd::string::StrSliceExecFns;
use vstd::string::StringExecFns;

use crate::text::{last_index_of, lemma_last_index_of, str_views};

verus! {

/// The file name an artifact URL downloads to: the last segment of the
/// URL path, that is everything after the last slash (the whole URL
/// when it has no slash).
pub open spec fn url_filename(url: Seq<char>) -> Seq<char> {
    let i = last_index_of(url, '/');
    if i < 0 {
        url
    } else {
        url.skip(i + 1)
    }
}

/// The file name an artifact URL downloads to.
pub fn artifact_filename(url: &str) -> (r: String)
    ensures
        r@ == url_filename(url@),
{
    let v = crate::text::chars_of(url);
    let n = v.len();
    let mut i = n;
    while i > 0
        invariant
            i <= n,
            n == v@.len(),
            v@ == url@,
            forall|j: int| i <= j < n ==> v@[j] != '/',
        decreases i,
    {
        i -= 1;
        if v[i] == '/' {
            proof {
                lemma_last_index_of(url@, '/');
                assert(last_index_of(url@, '/') == i as int);
                assert(v@.subrange(i + 1, n as int) =~= url_filename(url@));
            }
            let mut out: Vec<char> = Vec::new();
            let mut k = i + 1;
            while k < n
                invariant
                    i + 1 <= k <= n,
                    n == v@.len(),
                    out@ == v@.subrange(i + 1 as int, k as int),
                decreases n - k,
            {
                out.push(v[k]);
                k += 1;
                proof {
                    assert(out@ =~= v@.subrange(i + 1 as int, k as int));
                }
            }
            return crate::text::string_of(&out);
        }
    }
    proof {
        lemma_last_index_of(url@, '/');
        assert(last_index_of(url@, '/') == -1);
    }
    crate::text::string_of(&v)
}

/// The temporary name a download is streamed to before the atomic
/// rename to its final name.
pub fn temp_filename(filename: &str) -> (r: String)
    ensures
        r@ == filename@ + ".tmp"@,
{
    let mut s = String::from_str(filename);
    s.append(".tmp");
    s
}

/// A sequence of file names holds the given one.
pub open spec fn names_contain(s: Seq<Seq<char>>, f: Seq<char>) -> bool {
    exists|i: int| 0 <= i < s.len() && s[i] == f
}

/// The artifact cache: which file names are known to be present in the
/// cache directory, as far as this run has seen or written them.
pub struct ArtifactCache {
    pub present: Vec<String>,
}

impl ArtifactCache {
    /// A file name this cache knows to be present.
    pub open spec fn knows(&self, f: Seq<char>) -> bool {
        names_contain(str_views(self.present@), f)
    }

    /// A fresh cache that knows nothing.
    pub fn new() -> (c: ArtifactCache)
        ensures
            forall|f: Seq<char>| !c.knows(f),
    {
        let c = ArtifactCache { present: Vec::new() };
        proof {
            assert forall|f: Seq<char>| !c.knows(f) by {
                assert(str_views(c.present@).len() == 0);
            }
        }
        c
    }

    /// Whether materializing this file requires a network fetch: only
    /// when the cache does not know it and the caller's check of the
    /// cache directory did not find it either.
    pub fn needs_fetch(&self, filename: &String, found_on_disk: bool) -> (b: bool)
        ensures
            b == (!found_on_disk && !self.knows(filename@)),
    {
        if found_on_disk {
            return false;
        }
        let n = self.present.len();
        let mut i: usize = 0;
        while i < n
            invariant
                i <= n,
                n == self.present@.len(),
                forall|j: int| 0 <= j < i ==> str_views(self.present@)[j] != filename@,
            decreases n - i,
        {
            if self.present[i].eq(filename) {
                proof {
                    assert(str_views(self.present@)[i as int] == filename@);
                }
                return false;
            }
            proof {
                assert(str_views(self.present@)[i as int] == self.present@[i as int]@);
            }
            i += 1;
        }
        proof {
            assert(!self.knows(filename@));
        }
        true
    }

    /// Record that the file is now present in the cache directory,
    /// because it was found there or because a download completed.
    pub fn record_present(&mut self, filename: String)
        ensures
            forall|f: Seq<char>|
                final(self).knows(f) <==> old(self).knows(f) || f == filename@,
    {
        self.present.push(filename);
        proof {
            let s = str_views(self.present@);
            let o = str_views(old(self).present@);
            assert(s =~= o.push(filename@));
            assert(s[s.len() - 1] == filename@);
            assert forall|f: Seq<char>|
                self.knows(f) <==> old(self).knows(f) || f == filename@ by {
                if self.knows(f) {
                    let i = choose|i: int| 0 <= i < s.len() && s[i] == f;
                    if i < o.len() {
                        assert(o[i] == f);
                    }
                }
                if old(self).knows(f) {
                    let i = choose|i: int| 0 <= i < o.len() && o[i] == f;
                    assert(s[i] == f);
                }
            }
        }
    }
}

/// Materializing the same artifact twice downloads it at most once:
/// once the cache knows a file name — as `record_present` guarantees
/// after the first materialize step, and every later `record_present`
/// preserves — `needs_fetch` answers false for that name, whatever the
/// disk check reports.
pub proof fn lemma_materialize_idempotent(
    cache: ArtifactCache,
    filename: Seq<char>,
    found_on_disk: bool,
)
    requires
        cache.knows(filename),
    ensures
        !(!found_on_disk && !cache.knows(filename)),
{
}

/// The memo of fetched remote index pages, keyed by URL and scoped to
/// one resolution run.
pub struct IndexCache {
    pub entries: Vec<(String, String)>,
}

/// The views of the memo's entries.
pub open spec fn entry_views(s: Seq<(String, String)>) -> Seq<(Seq<char>, Seq<char>)> {
    s.map_values(|e: (String, String)| (e.0@, e.1@))
}

/// What a lookup finds: the content stored with the first entry whose
/// URL matches.
pub open spec fn index_lookup(s: Seq<(Seq<char>, Seq<char>)>, url: Seq<char>) -> Option<Seq<char>>
    decreases s.len(),
{
    if s.len() == 0 {
        None
    } else if s[0].0 == url {
        Some(s[0].1)
    } else {
        index_lookup(s.drop_first(), url)
    }
}

/// A page stored for a URL is found again by every later lookup of that
/// URL: fetching through the memo fetches each index page at most once.
pub proof fn lemma_index_memo(s: Seq<(Seq<char>, Seq<char>)>, url: Seq<char>, content: Seq<char>)
    ensures
        index_lookup(s.push((url, content)), url) == match index_lookup(s, url) {
            Some(c) => Some(c),
            None => Some(content),
        },
    decreases s.len(),
{
    if s.len() == 0 {
        assert(s.push((url, content))[0] == (url, content));
    } else if s[0].0 == url {
        assert(s.push((url, content))[0] == s[0]);
    } else {
        assert(s.push((url, content))[0] == s[0]);
        lemma_index_memo(s.drop_first(), url, content);
        assert(s.push((url, content)).drop_first() =~= s.drop_first().push((url, content)));
    }
}

impl IndexCache {
    /// The memo's contents.
    pub open spec fn entries_view(&self) -> Seq<(Seq<char>, Seq<char>)> {
        entry_views(self.entries@)
    }

    /// An empty memo.
    pub fn new() -> (c: IndexCache)
        ensures
            c.entries_view().len() == 0,
    {
        IndexCache { entries: Vec::new() }
    }

    /// The page stored for this URL, if one is.
    pub fn get(&self, url: &String) -> (r: Option<String>)
        ensures
            match r {
                Some(c) => index_lookup(self.entries_view(), url@) == Some(c@),
                None => index_lookup(self.entries_view(), url@) is None,
            },
    {
        let ghost full = self.entries_view();
        proof {
            assert(full.skip(0) =~= full);
        }
        let n = self.entries.len();
        let mut i: usize = 0;
        while i < n
            invariant
                i <= n,
                n == self.entries@.len(),
                full == self.entries_view(),
                index_lookup(full, url@) == index_lookup(
                    self.entries_view().skip(i as int),
                    url@,
                ),
            decreases n - i,
        {
            let ghost cur = self.entries_view().skip(i as int);
            proof {
                assert(cur[0] == self.entries_view()[i as int]);
                assert(cur[0] == (self.entries@[i as int].0@, self.entries@[i as int].1@));
            }
            if self.entries[i].0.eq(url) {
                let content = self.entries[i].1.clone();
                return Some(content);
            }
            proof {
                assert(cur.drop_first() =~= self.entries_view().skip(i + 1));
            }
            i += 1;
        }
        proof {
            assert(self.entries_view().skip(n as int).len() == 0);
        }
        None
    }

    /// Store the page fetched for a URL.
    pub fn put(&mut self, url: String, content: String)
        ensures
            final(self).entries_view() == old(self).entries_view().push((url@, content@)),
    {
        self.entries.push((url, content));
        proof {
            assert(self.entries_view() =~= old(self).entries_view().push((url@, content@)));
        }
    }
}

} // verus!
